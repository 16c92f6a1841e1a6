//! Coalitions numbered by their members, and the values of a game.
use vstd::arithmetic::div_mod::{lemma_fundamental_div_mod, lemma_fundamental_div_mod_converse};
use vstd::arithmetic::power2::{lemma_pow2_adds, lemma_pow2_pos, lemma_pow2_unfold, pow2};
use vstd::prelude::*;

verus! {

/// Operator `k` is in coalition `s`.
pub open spec fn is_member(s: int, k: int) -> bool {
    (s / pow2(k as nat) as int) % 2 == 1
}

/// How many operators coalition `s` has.
pub open spec fn size_of(s: int) -> int
    decreases s,
{
    if s <= 0 {
        0
    } else {
        s % 2 + size_of(s / 2)
    }
}

/// The product of the first `n` positive numbers.
pub open spec fn fact(n: int) -> nat
    decreases n,
{
    if n <= 0 {
        1
    } else {
        n as nat * fact(n - 1)
    }
}

/// The weight, over `fact(n)`, of what an operator adds to the others in a coalition
/// of `size`, itself counted.
pub open spec fn weight_of(n: int, size: int) -> nat {
    fact(size - 1) * fact(n - size)
}

/// The sum of `f(0)`, `f(1)`, up to `f(n - 1)`.
pub open spec fn sum(n: int, f: spec_fn(int) -> real) -> real
    decreases n,
{
    if n <= 0 {
        0real
    } else {
        sum(n - 1, f) + f(n - 1)
    }
}

/// A sum depends on its terms alone.
pub proof fn sum_same(n: int, f: spec_fn(int) -> real, g: spec_fn(int) -> real)
    requires
        forall|i: int| 0 <= i < n ==> #[trigger] f(i) == g(i),
    ensures
        sum(n, f) == sum(n, g),
    decreases n,
{
    if n > 0 {
        sum_same(n - 1, f, g);
        assert(f(n - 1) == g(n - 1));
    }
}

/// Sums add up term by term.
pub proof fn sum_of_sums(n: int, f: spec_fn(int) -> real, g: spec_fn(int) -> real)
    ensures
        sum(n, |i: int| f(i) + g(i)) == sum(n, f) + sum(n, g),
    decreases n,
{
    if n > 0 {
        sum_of_sums(n - 1, f, g);
    }
}

/// A factor can stand before the sum.
pub proof fn sum_scaled(n: int, f: spec_fn(int) -> real, c: real)
    ensures
        sum(n, |i: int| c * f(i)) == c * sum(n, f),
    decreases n,
{
    let g = |i: int| c * f(i);
    if n > 0 {
        sum_scaled(n - 1, f, c);
        let (a, b) = (sum(n - 1, f), f(n - 1));
        assert(c * (a + b) == c * a + c * b) by (nonlinear_arith);
    } else {
        assert(c * 0real == 0real) by (nonlinear_arith);
    }
}

/// Nothing adds up to nothing.
pub proof fn sum_zero(n: int, f: spec_fn(int) -> real)
    requires
        forall|i: int| 0 <= i < n ==> #[trigger] f(i) == 0real,
    ensures
        sum(n, f) == 0real,
    decreases n,
{
    if n > 0 {
        sum_zero(n - 1, f);
        assert(f(n - 1) == 0real);
    }
}

/// A sum can be taken in two parts.
pub proof fn sum_split(m: int, n: int, f: spec_fn(int) -> real)
    requires
        0 <= m,
        0 <= n,
    ensures
        sum(m + n, f) == sum(m, f) + sum(n, |i: int| f(m + i)),
    decreases n,
{
    let g = |i: int| f(m + i);
    if n > 0 {
        sum_split(m, n - 1, f);
        assert(g(n - 1) == f(m + n - 1));
        assert(sum(m + n, f) == sum(m + n - 1, f) + f(m + n - 1));
    }
}

/// The order of a double sum does not matter.
pub proof fn sum_swapped(m: int, n: int, f: spec_fn(int, int) -> real)
    ensures
        sum(m, |i: int| sum(n, |j: int| f(i, j))) == sum(n, |j: int| sum(m, |i: int| f(i, j))),
    decreases m,
{
    let by_row = |i: int| sum(n, |j: int| f(i, j));
    let by_col = |j: int| sum(m, |i: int| f(i, j));
    if m <= 0 {
        sum_zero(n, by_col);
    } else {
        sum_swapped(m - 1, n, f);
        let shorter = |j: int| sum(m - 1, |i: int| f(i, j));
        let last = |j: int| f(m - 1, j);
        sum_of_sums(n, shorter, last);
        assert forall|j: int| 0 <= j < n implies #[trigger] by_col(j) == shorter(j) + last(j) by {
            let g = |i: int| f(i, j);
            assert(sum(m, g) == sum(m - 1, g) + g(m - 1));
        }
        sum_same(n, by_col, |j: int| shorter(j) + last(j));
        assert(sum(m, by_row) == sum(m - 1, by_row) + by_row(m - 1));
    }
}

/// Adding an operator to a coalition without it: the new coalition has it, is one
/// larger, and agrees with the old one on the others.
pub proof fn joining(s: int, k: int)
    requires
        0 <= s,
        0 <= k,
        !is_member(s, k),
    ensures
        is_member(s + pow2(k as nat), k),
        size_of(s + pow2(k as nat)) == size_of(s) + 1,
        forall|j: int| 0 <= j && j != k ==> #[trigger] is_member(s + pow2(k as nat), j) == is_member(s, j),
    decreases k,
{
    let p = pow2(k as nat) as int;
    lemma_pow2_pos(k as nat);
    let t = s + p;
    if k == 0 {
        assert(p == 1) by {
            vstd::arithmetic::power2::lemma2_to64();
        }
        assert(s % 2 == 0) by {
            assert(s / 1 == s);
        }
        assert(t / 2 == s / 2);
        assert(t % 2 == 1);
        assert(t / 1 == t);
        if s == 0 {
            assert(size_of(1) == 1 + size_of(0)) by {
                assert(1int / 2 == 0);
                assert(1int % 2 == 1);
            }
        }
        assert forall|j: int| 0 <= j && j != k implies #[trigger] is_member(t, j) == is_member(
            s,
            j,
        ) by {
            member_shift(t, j);
            member_shift(s, j);
        }
    } else {
        lemma_pow2_unfold(k as nat);
        let h = pow2((k - 1) as nat) as int;
        assert(p == 2 * h);
        member_shift(s, k);
        assert((s + 2 * h) / 2 == s / 2 + h);
        assert((s + 2 * h) % 2 == s % 2);
        joining(s / 2, k - 1);
        member_shift(t, k);
        assert forall|j: int| 0 <= j && j != k implies #[trigger] is_member(t, j) == is_member(
            s,
            j,
        ) by {
            if j == 0 {
                vstd::arithmetic::power2::lemma2_to64();
                assert(t / 1 == t && s / 1 == s);
            } else {
                member_shift(t, j);
                member_shift(s, j);
                assert(is_member(s / 2 + h, j - 1) == is_member(s / 2, j - 1));
            }
        }
        if s == 0 {
            assert(size_of(0) == 0);
            assert(0int / 2 == 0);
        }
    }
}

/// Membership, one operator on.
pub proof fn member_shift(s: int, k: int)
    requires
        0 <= s,
        0 < k,
    ensures
        is_member(s, k) == is_member(s / 2, k - 1),
{
    lemma_pow2_unfold(k as nat);
    lemma_pow2_pos((k - 1) as nat);
    let h = pow2((k - 1) as nat) as int;
    vstd::arithmetic::div_mod::lemma_div_denominator(s, 2, h);
}

/// Taking an operator out of a coalition with it.
pub proof fn leaving(s: int, k: int)
    requires
        0 <= s,
        0 <= k,
        is_member(s, k),
    ensures
        0 <= s - pow2(k as nat),
        !is_member(s - pow2(k as nat), k),
{
    let p = pow2(k as nat) as int;
    lemma_pow2_pos(k as nat);
    lemma_fundamental_div_mod(s, p);
    let q = s / p;
    let r = s % p;
    assert(q >= 1);
    assert(p * q >= p) by (nonlinear_arith)
        requires
            q >= 1,
            p > 0,
    ;
    assert(s - p == (q - 1) * p + r) by (nonlinear_arith)
        requires
            s == p * q + r,
    ;
    lemma_fundamental_div_mod_converse(s - p, p, q - 1, r);
    assert((s - p) / p == q - 1);
}

/// The size of a coalition of `n` operators: between none and all of them, none only
/// for the empty one, all only for the full one.
pub proof fn size_bounds(s: int, n: int)
    requires
        0 <= n,
        0 <= s < pow2(n as nat),
    ensures
        0 <= size_of(s) <= n,
        size_of(s) == 0 <==> s == 0,
        size_of(s) == n <==> s == pow2(n as nat) - 1,
    decreases n,
{
    if n == 0 {
        vstd::arithmetic::power2::lemma2_to64();
    } else {
        lemma_pow2_unfold(n as nat);
        let half = pow2((n - 1) as nat) as int;
        assert(0 <= s / 2 < half);
        size_bounds(s / 2, n - 1);
        if s == 0 {
            assert(0int / 2 == 0);
            lemma_pow2_pos((n - 1) as nat);
        }
    }
}

/// Summing over the coalitions with an operator what belongs to them without it is
/// summing over the coalitions without the operator.
proof fn with_and_without(blocks: int, k: int, g: spec_fn(int) -> real)
    requires
        0 <= blocks,
        0 <= k,
    ensures
        sum(
            blocks * (2 * pow2(k as nat)),
            |s: int|
                if is_member(s, k) {
                    g(s - pow2(k as nat))
                } else {
                    0real
                },
        ) == sum(
            blocks * (2 * pow2(k as nat)),
            |s: int|
                if is_member(s, k) {
                    0real
                } else {
                    g(s)
                },
        ),
    decreases blocks,
{
    let p = pow2(k as nat) as int;
    lemma_pow2_pos(k as nat);
    let a = |s: int|
        if is_member(s, k) {
            g(s - p)
        } else {
            0real
        };
    let b = |s: int|
        if is_member(s, k) {
            0real
        } else {
            g(s)
        };
    if blocks == 0 {
        assert(0 * (2 * p) == 0) by (nonlinear_arith);
    } else {
        let start = (blocks - 1) * (2 * p);
        with_and_without(blocks - 1, k, g);
        assert(start >= 0) by (nonlinear_arith)
            requires
                start == (blocks - 1) * (2 * p),
                blocks >= 1,
                p > 0,
        ;
        assert(blocks * (2 * p) == start + p + p) by (nonlinear_arith)
            requires
                start == (blocks - 1) * (2 * p),
        ;
        let a1 = |i: int| a(start + i);
        let a2 = |i: int| a(start + p + i);
        let b1 = |i: int| b(start + i);
        let b2 = |i: int| b(start + p + i);
        sum_split(start, p, a);
        sum_split(start + p, p, a);
        sum_split(start, p, b);
        sum_split(start + p, p, b);
        assert forall|i: int| 0 <= i < p implies #[trigger] a1(i) == 0real && b1(i) == g(start + i)
            && a2(i) == g(start + i) && b2(i) == 0real by {
            assert(start + i == (2 * (blocks - 1)) * p + i) by (nonlinear_arith)
                requires
                    start == (blocks - 1) * (2 * p),
            ;
            assert(start + p + i == (2 * (blocks - 1) + 1) * p + i) by (nonlinear_arith)
                requires
                    start == (blocks - 1) * (2 * p),
            ;
            lemma_fundamental_div_mod_converse(start + i, p, 2 * (blocks - 1), i);
            lemma_fundamental_div_mod_converse(start + p + i, p, 2 * (blocks - 1) + 1, i);
            assert((2 * (blocks - 1)) % 2 == 0 && (2 * (blocks - 1) + 1) % 2 == 1);
        }
        sum_zero(p, a1);
        assert forall|i: int| 0 <= i < p implies #[trigger] b2(i) == 0real by {
            assert(a1(i) == 0real);
        }
        sum_zero(p, b2);
        assert forall|i: int| 0 <= i < p implies #[trigger] a2(i) == b1(i) by {
            assert(a1(i) == 0real);
        }
        sum_same(p, a2, b1);
    }
}

/// One more time a value.
proof fn once_more(z: int, a: real)
    ensures
        (z + 1) as real * a == z as real * a + a,
{
    let x = z as real;
    assert((z + 1) as real == x + 1real);
    assert((x + 1real) * a == x * a + a) by (nonlinear_arith);
}

/// Over the operators of a coalition and those outside it, two values add up as
/// often as there are such operators.
proof fn member_sum(s: int, n: int, a: real, b: real)
    requires
        0 <= n,
        0 <= s < pow2(n as nat),
    ensures
        sum(
            n,
            |k: int|
                if is_member(s, k) {
                    a
                } else {
                    b
                },
        ) == size_of(s) as real * a + (n - size_of(s)) as real * b,
    decreases n,
{
    let f = |k: int|
        if is_member(s, k) {
            a
        } else {
            b
        };
    if n == 0 {
        vstd::arithmetic::power2::lemma2_to64();
        assert(s == 0);
        assert(size_of(0) == 0);
        assert(0real * a == 0real) by (nonlinear_arith);
        assert(0real * b == 0real) by (nonlinear_arith);
    } else {
        let t = s / 2;
        assert(0 <= t < pow2((n - 1) as nat)) by {
            lemma_pow2_unfold(n as nat);
        }
        member_sum(t, n - 1, a, b);
        sum_split(1, n - 1, f);
        let g = |i: int| f(1 + i);
        let h = |k: int|
            if is_member(t, k) {
                a
            } else {
                b
            };
        assert forall|i: int| 0 <= i < n - 1 implies #[trigger] g(i) == h(i) by {
            member_shift(s, 1 + i);
        }
        sum_same(n - 1, g, h);
        assert(sum(1, f) == f(0)) by {
            reveal_with_fuel(sum, 2);
        }
        assert(is_member(s, 0) == (s % 2 == 1)) by {
            vstd::arithmetic::power2::lemma2_to64();
            assert(s / 1 == s);
        }
        let z = size_of(t);
        assert(size_of(s) == s % 2 + z) by {
            if s == 0 {
                assert(0int / 2 == 0);
            }
        }
        if s % 2 == 1 {
            once_more(z, a);
        } else {
            once_more(n - 1 - z, b);
        }
    }
}

/// Factorials are positive.
pub proof fn fact_positive(n: int)
    ensures
        fact(n) > 0,
    decreases n,
{
    if n > 0 {
        fact_positive(n - 1);
        let f = fact(n - 1) as int;
        assert(n * f > 0) by (nonlinear_arith)
            requires
                n > 0,
                f > 0,
        ;
    }
}

/// The weights on both sides of a coalition balance: what its members draw from it
/// is what the others have it for.
proof fn weights_balance(n: int, size: int)
    requires
        0 < n,
        0 <= size <= n,
    ensures
        size * weight_of(n, size) - (n - size) * weight_of(n, size + 1) == if size == 0 {
            -fact(n)
        } else if size == n {
            fact(n) as int
        } else {
            0int
        },
{
    let (f, g) = (fact(size) as int, fact(n - size) as int);
    let (e, h) = (fact(size - 1) as int, fact(n - size - 1) as int);
    let rest = n - size;
    assert(fact(0) == 1);
    if size > 0 {
        assert(f == size * e);
        assert(size * (e * g) == (size * e) * g) by (nonlinear_arith);
    } else {
        assert(0 * (e * g) == 0) by (nonlinear_arith);
    }
    if size < n {
        assert(g == rest * h);
        assert(rest * (f * h) == f * (rest * h)) by (nonlinear_arith);
    } else {
        assert(0 * (f * h) == 0) by (nonlinear_arith);
    }
    assert(1 * g == g && f * 1 == f) by (nonlinear_arith);
}

/// A product of whole numbers is the product of the numbers.
proof fn product_cast(a: int, b: int)
    requires
        a >= 0,
    ensures
        (a * b) as real == a as real * b as real,
    decreases a,
{
    if a == 0 {
        assert(0 * b == 0) by (nonlinear_arith);
        assert(0real * (b as real) == 0real) by (nonlinear_arith);
    } else {
        product_cast(a - 1, b);
        assert(a * b == (a - 1) * b + b) by (nonlinear_arith);
        once_more(a - 1, b as real);
    }
}

/// A weight as a number.
pub open spec fn weight_real(n: int, size: int) -> real {
    weight_of(n, size) as real
}

/// What operator `k` is worth in a game of `n` operators in which coalition `s` is
/// worth `v(s)`, times `fact(n)`: over all coalitions with the operator, what it adds
/// to the others, weighed by the size of the coalition.
pub open spec fn weighed_value(n: int, v: spec_fn(int) -> real, k: int) -> real {
    sum(
        pow2(n as nat) as int,
        |s: int|
            if is_member(s, k) {
                weight_real(n, size_of(s)) * (v(s) - v(s - pow2(k as nat)))
            } else {
                0real
            },
    )
}

/// A factor before a difference.
proof fn distribute(c: real, x: real, y: real)
    ensures
        c * (x - y) == c * x + (-c) * y,
{
    assert(c * (x - y) == c * x + (-c) * y) by (nonlinear_arith);
}

/// What an operator is worth, as a sum over all coalitions of what each is worth.
proof fn value_as_terms(n: int, v: spec_fn(int) -> real, k: int)
    requires
        0 <= k < n,
    ensures
        weighed_value(n, v, k) == sum(
            pow2(n as nat) as int,
            |s: int|
                if is_member(s, k) {
                    weight_real(n, size_of(s)) * v(s)
                } else {
                    (-weight_real(n, size_of(s) + 1)) * v(s)
                },
        ),
{
    let all = pow2(n as nat) as int;
    let p = pow2(k as nat) as int;
    let whole = |s: int|
        if is_member(s, k) {
            weight_real(n, size_of(s)) * (v(s) - v(s - p))
        } else {
            0real
        };
    let g = |u: int| (-weight_real(n, size_of(u) + 1)) * v(u);
    let first = |s: int|
        if is_member(s, k) {
            weight_real(n, size_of(s)) * v(s)
        } else {
            0real
        };
    let second = |s: int|
        if is_member(s, k) {
            g(s - p)
        } else {
            0real
        };
    let moved = |s: int|
        if is_member(s, k) {
            0real
        } else {
            g(s)
        };
    let pair = |s: int| first(s) + second(s);
    assert forall|s: int| 0 <= s < all implies #[trigger] whole(s) == pair(s) by {
        if is_member(s, k) {
            leaving(s, k);
            joining(s - p, k);
            distribute(weight_real(n, size_of(s)), v(s), v(s - p));
        }
    }
    sum_same(all, whole, pair);
    sum_of_sums(all, first, second);
    lemma_pow2_adds((n - k - 1) as nat, (k + 1) as nat);
    lemma_pow2_unfold((k + 1) as nat);
    let blocks = pow2((n - k - 1) as nat) as int;
    assert(all == blocks * (2 * p));
    with_and_without(blocks, k, g);
    sum_of_sums(all, first, moved);
    let joined = |s: int|
        if is_member(s, k) {
            weight_real(n, size_of(s)) * v(s)
        } else {
            (-weight_real(n, size_of(s) + 1)) * v(s)
        };
    let split = |s: int| first(s) + moved(s);
    assert forall|s: int| 0 <= s < all implies #[trigger] joined(s) == split(s) by {}
    sum_same(all, joined, split);
}

/// A sum whose terms are nothing but at its two ends.
proof fn sum_of_ends(n: int, f: spec_fn(int) -> real)
    requires
        n >= 2,
        forall|i: int| 0 < i < n - 1 ==> #[trigger] f(i) == 0real,
    ensures
        sum(n, f) == f(0) + f(n - 1),
{
    sum_split(1, n - 2, f);
    let g = |i: int| f(1 + i);
    assert forall|i: int| 0 <= i < n - 2 implies #[trigger] g(i) == 0real by {
        assert(f(1 + i) == 0real);
    }
    sum_zero(n - 2, g);
    assert(sum(1, f) == f(0)) by {
        reveal_with_fuel(sum, 2);
    }
    assert(sum(n, f) == sum(n - 1, f) + f(n - 1));
}

/// What a coalition counts for in all values together, from what it counts for in
/// those of its members and of the others.
proof fn gather_weights(x: real, y: real, c: real, d: real, w: real)
    ensures
        x * (c * w) + y * ((-d) * w) == (x * c - y * d) * w,
{
    assert(x * (c * w) == (x * c) * w) by (nonlinear_arith);
    assert(y * ((-d) * w) == -((y * d) * w)) by (nonlinear_arith);
    let (a, b) = (x * c, y * d);
    assert((a - b) * w == a * w - b * w) by (nonlinear_arith);
}

/// What a coalition counts for in all values together: the full one for, the empty
/// one against, the others not at all.
proof fn coalition_counts(n: int, v: spec_fn(int) -> real, s: int)
    requires
        0 < n,
        0 <= s < pow2(n as nat),
    ensures
        sum(
            n,
            |k: int|
                if is_member(s, k) {
                    weight_real(n, size_of(s)) * v(s)
                } else {
                    (-weight_real(n, size_of(s) + 1)) * v(s)
                },
        ) == if s == 0 {
            -(fact(n) as real * v(s))
        } else if s == pow2(n as nat) - 1 {
            fact(n) as real * v(s)
        } else {
            0real
        },
{
    let z = size_of(s);
    size_bounds(s, n);
    let (c, d, w) = (weight_real(n, z), weight_real(n, z + 1), v(s));
    member_sum(s, n, c * w, (-d) * w);
    gather_weights(z as real, (n - z) as real, c, d, w);
    weights_balance(n, z);
    product_cast(z, weight_of(n, z) as int);
    product_cast(n - z, weight_of(n, z + 1) as int);
    let whole = fact(n) as real;
    let f = z as real * c - (n - z) as real * d;
    if s == 0 {
        assert(f == -whole);
        assert((-whole) * w == -(whole * w)) by (nonlinear_arith);
    } else if z == n {
        assert(f == whole);
    } else {
        assert(f == 0real);
        assert(0real * w == 0real) by (nonlinear_arith);
    }
}

/// The values of all operators together, times `fact(n)`.
proof fn weighed_values_add_up(n: int, v: spec_fn(int) -> real)
    requires
        0 < n,
    ensures
        sum(n, |k: int| weighed_value(n, v, k)) == fact(n) as real * v(pow2(n as nat) - 1) - fact(
            n,
        ) as real * v(0),
{
    let all = pow2(n as nat) as int;
    let term = |k: int, s: int|
        if is_member(s, k) {
            weight_real(n, size_of(s)) * v(s)
        } else {
            (-weight_real(n, size_of(s) + 1)) * v(s)
        };
    let values = |k: int| weighed_value(n, v, k);
    let by_operator = |k: int| sum(all, |s: int| term(k, s));
    assert forall|k: int| 0 <= k < n implies #[trigger] values(k) == by_operator(k) by {
        value_as_terms(n, v, k);
        sum_same(
            all,
            |s: int| term(k, s),
            |s: int|
                if is_member(s, k) {
                    weight_real(n, size_of(s)) * v(s)
                } else {
                    (-weight_real(n, size_of(s) + 1)) * v(s)
                },
        );
    }
    sum_same(n, values, by_operator);
    sum_swapped(n, all, term);
    let by_coalition = |s: int| sum(n, |k: int| term(k, s));
    let ends = |s: int|
        if s == 0 {
            -(fact(n) as real * v(s))
        } else if s == all - 1 {
            fact(n) as real * v(s)
        } else {
            0real
        };
    assert forall|s: int| 0 <= s < all implies #[trigger] by_coalition(s) == ends(s) by {
        coalition_counts(n, v, s);
        sum_same(
            n,
            |k: int| term(k, s),
            |k: int|
                if is_member(s, k) {
                    weight_real(n, size_of(s)) * v(s)
                } else {
                    (-weight_real(n, size_of(s) + 1)) * v(s)
                },
        );
    }
    sum_same(all, by_coalition, ends);
    assert(all >= 2) by {
        lemma_pow2_unfold(n as nat);
        lemma_pow2_pos((n - 1) as nat);
    }
    sum_of_ends(all, ends);
}

/// What operator `k` is worth.
pub open spec fn shapley_value(n: int, v: spec_fn(int) -> real, k: int) -> real {
    weighed_value(n, v, k) / fact(n) as real
}

/// A quotient as a product.
proof fn quotient(x: real, f: real, y: real)
    requires
        f > 0real,
        y * f == x,
    ensures
        x / f == y,
{
    assert(x / f == y) by (nonlinear_arith)
        requires
            f > 0real,
            y * f == x,
    ;
}

/// The inverse of a positive number.
proof fn inverse(f: real) -> (c: real)
    requires
        f > 0real,
    ensures
        c * f == 1real,
{
    let c = 1real / f;
    assert((1real / f) * f == 1real) by (nonlinear_arith)
        requires
            f > 0real,
    ;
    c
}

/// Nothing is lost and nothing is left over: what the operators are worth adds up to
/// what all of them together are worth beyond none of them.
pub proof fn values_add_up(n: int, v: spec_fn(int) -> real)
    requires
        0 < n,
    ensures
        sum(n, |k: int| shapley_value(n, v, k)) == v(pow2(n as nat) - 1) - v(0),
{
    let f = fact(n) as real;
    fact_positive(n);
    let c = inverse(f);
    let weighed = |k: int| weighed_value(n, v, k);
    let values = |k: int| shapley_value(n, v, k);
    let scaled = |k: int| c * weighed(k);
    assert forall|k: int| 0 <= k < n implies #[trigger] values(k) == scaled(k) by {
        let x = weighed(k);
        assert((c * x) * f == (c * f) * x) by (nonlinear_arith);
        assert(1real * x == x) by (nonlinear_arith);
        quotient(x, f, c * x);
    }
    sum_same(n, values, scaled);
    sum_scaled(n, weighed, c);
    weighed_values_add_up(n, v);
    let (a, b) = (v(pow2(n as nat) - 1), v(0));
    assert(c * (f * a - f * b) == (c * f) * a - (c * f) * b) by (nonlinear_arith);
    assert(1real * a == a && 1real * b == b) by (nonlinear_arith);
}

/// An operator that adds nothing to any coalition is worth nothing.
pub proof fn idle_operator_is_worthless(n: int, v: spec_fn(int) -> real, k: int)
    requires
        0 <= k < n,
        forall|s: int|
            0 <= s < pow2(n as nat) && #[trigger] is_member(s, k) ==> v(s) == v(
                s - pow2(k as nat),
            ),
    ensures
        shapley_value(n, v, k) == 0real,
{
    let f = |s: int|
        if is_member(s, k) {
            weight_real(n, size_of(s)) * (v(s) - v(s - pow2(k as nat)))
        } else {
            0real
        };
    assert forall|s: int| 0 <= s < pow2(n as nat) implies #[trigger] f(s) == 0real by {
        if is_member(s, k) {
            let c = weight_real(n, size_of(s));
            assert(c * 0real == 0real) by (nonlinear_arith);
        }
    }
    sum_zero(pow2(n as nat) as int, f);
    fact_positive(n);
    assert(0real * (fact(n) as real) == 0real) by (nonlinear_arith);
    quotient(0real, fact(n) as real, 0real);
}

/// A sum over the coalitions with an operator, taken over those that the operator joins.
proof fn sum_joined(n: int, k: int, h: spec_fn(int) -> real)
    requires
        0 <= k < n,
    ensures
        sum(
            pow2(n as nat) as int,
            |s: int|
                if is_member(s, k) {
                    h(s)
                } else {
                    0real
                },
        ) == sum(
            pow2(n as nat) as int,
            |t: int|
                if is_member(t, k) {
                    0real
                } else {
                    h(t + pow2(k as nat))
                },
        ),
{
    let all = pow2(n as nat) as int;
    let p = pow2(k as nat) as int;
    let g = |t: int| h(t + p);
    lemma_pow2_adds((n - k - 1) as nat, (k + 1) as nat);
    lemma_pow2_unfold((k + 1) as nat);
    let blocks = pow2((n - k - 1) as nat) as int;
    assert(all == blocks * (2 * p));
    with_and_without(blocks, k, g);
    sum_same(
        all,
        |s: int|
            if is_member(s, k) {
                h(s)
            } else {
                0real
            },
        |s: int|
            if is_member(s, k) {
                g(s - p)
            } else {
                0real
            },
    );
    sum_same(
        all,
        |t: int|
            if is_member(t, k) {
                0real
            } else {
                h(t + p)
            },
        |t: int|
            if is_member(t, k) {
                0real
            } else {
                g(t)
            },
    );
}

/// What a coalition with one of two operators counts for in the difference of their
/// values.
spec fn stake(n: int, v: spec_fn(int) -> real, s: int) -> real {
    weight_real(n, size_of(s)) * v(s) - (-weight_real(n, size_of(s) + 1)) * v(s)
}

/// The coalitions with the first operator and without the second count for as much as
/// those with the second and without the first, where both add the same.
proof fn stakes_agree(n: int, v: spec_fn(int) -> real, i: int, j: int, t: int)
    requires
        0 <= i < n,
        0 <= j < n,
        i != j,
        0 <= t,
        !is_member(t, i) && !is_member(t, j) ==> v(t + pow2(i as nat)) == v(t + pow2(j as nat)),
    ensures
        (if is_member(t, i) || is_member(t + pow2(i as nat), j) {
            0real
        } else {
            stake(n, v, t + pow2(i as nat))
        }) == (if is_member(t, j) || is_member(t + pow2(j as nat), i) {
            0real
        } else {
            stake(n, v, t + pow2(j as nat))
        }),
{
    if !is_member(t, i) {
        joining(t, i);
        assert(is_member(t + pow2(i as nat), j) == is_member(t, j));
    }
    if !is_member(t, j) {
        joining(t, j);
        assert(is_member(t + pow2(j as nat), i) == is_member(t, i));
    }
}

/// Operators that add the same to every coalition are worth the same.
pub proof fn like_operators_are_worth_the_same(n: int, v: spec_fn(int) -> real, i: int, j: int)
    requires
        0 <= i < n,
        0 <= j < n,
        forall|t: int|
            0 <= t < pow2(n as nat) && !#[trigger] is_member(t, i) && !is_member(t, j) ==> v(
                t + pow2(i as nat),
            ) == v(t + pow2(j as nat)),
    ensures
        shapley_value(n, v, i) == shapley_value(n, v, j),
{
    if i != j {
        let all = pow2(n as nat) as int;
        let term = |k: int, s: int|
            if is_member(s, k) {
                weight_real(n, size_of(s)) * v(s)
            } else {
                (-weight_real(n, size_of(s) + 1)) * v(s)
            };
        let (a, b) = (|s: int| term(i, s), |s: int| term(j, s));
        value_as_terms(n, v, i);
        value_as_terms(n, v, j);
        sum_same(
            all,
            a,
            |s: int|
                if is_member(s, i) {
                    weight_real(n, size_of(s)) * v(s)
                } else {
                    (-weight_real(n, size_of(s) + 1)) * v(s)
                },
        );
        sum_same(
            all,
            b,
            |s: int|
                if is_member(s, j) {
                    weight_real(n, size_of(s)) * v(s)
                } else {
                    (-weight_real(n, size_of(s) + 1)) * v(s)
                },
        );
        let without = |k: int, s: int|
            if is_member(s, k) {
                0real
            } else {
                stake(n, v, s)
            };
        let (hi, hj) = (|s: int| without(j, s), |s: int| without(i, s));
        let only_i = |s: int|
            if is_member(s, i) {
                hi(s)
            } else {
                0real
            };
        let only_j = |s: int|
            if is_member(s, j) {
                hj(s)
            } else {
                0real
            };
        let (x, y) = (|s: int| a(s) + only_j(s), |s: int| b(s) + only_i(s));
        assert forall|s: int| 0 <= s < all implies #[trigger] x(s) == y(s) by {}
        sum_same(all, x, y);
        sum_of_sums(all, a, only_j);
        sum_of_sums(all, b, only_i);
        sum_joined(n, i, hi);
        sum_joined(n, j, hj);
        let moved_i = |t: int|
            if is_member(t, i) {
                0real
            } else {
                hi(t + pow2(i as nat))
            };
        let moved_j = |t: int|
            if is_member(t, j) {
                0real
            } else {
                hj(t + pow2(j as nat))
            };
        assert forall|t: int| 0 <= t < all implies #[trigger] moved_i(t) == moved_j(t) by {
            stakes_agree(n, v, i, j, t);
        }
        sum_same(all, moved_i, moved_j);
    }
}

/// Every operator of coalition `t` is in coalition `s`.
pub open spec fn is_subset(t: int, s: int) -> bool
    decreases t,
{
    t <= 0 || ((t % 2 == 1 ==> s % 2 == 1) && is_subset(t / 2, s / 2))
}

/// A part of a coalition has no larger number and is no larger.
pub proof fn subset_bounds(t: int, s: int)
    requires
        0 <= t,
        0 <= s,
        is_subset(t, s),
    ensures
        t <= s,
        size_of(t) <= size_of(s),
        0 <= size_of(t),
    decreases t,
{
    if t > 0 {
        subset_bounds(t / 2, s / 2);
        assert(s > 0);
    } else {
        size_nonnegative(s);
    }
}

/// No coalition has fewer operators than none.
pub proof fn size_nonnegative(s: int)
    ensures
        0 <= size_of(s),
    decreases s,
{
    if s > 0 {
        size_nonnegative(s / 2);
    }
}

/// Parts of a coalition that an operator joins: with the operator, they are parts of
/// the old one joined by it; without it, parts of the old one.
proof fn subset_joined(t: int, s: int, k: int)
    requires
        0 <= t,
        0 <= s,
        0 <= k,
        !is_member(t, k),
        !is_member(s, k),
    ensures
        is_subset(t + pow2(k as nat), s + pow2(k as nat)) == is_subset(t, s),
        is_subset(t, s + pow2(k as nat)) == is_subset(t, s),
        !is_subset(t + pow2(k as nat), s),
    decreases k,
{
    let p = pow2(k as nat) as int;
    lemma_pow2_pos(k as nat);
    if k == 0 {
        assert(p == 1) by {
            vstd::arithmetic::power2::lemma2_to64();
        }
        assert(t / 1 == t && s / 1 == s);
        assert((t + 1) / 2 == t / 2 && (s + 1) / 2 == s / 2);
        assert((t + 1) % 2 == 1 && (s + 1) % 2 == 1);
        if t == 0 {
            assert(is_subset(0, s / 2));
        }
    } else {
        lemma_pow2_unfold(k as nat);
        let h = pow2((k - 1) as nat) as int;
        lemma_pow2_pos((k - 1) as nat);
        member_shift(t, k);
        member_shift(s, k);
        subset_joined(t / 2, s / 2, k - 1);
        assert((t + p) / 2 == t / 2 + h && (s + p) / 2 == s / 2 + h);
        assert((t + p) % 2 == t % 2 && (s + p) % 2 == s % 2);
        if t == 0 {
            assert(0int / 2 == 0);
            assert(is_subset(0, s / 2));
        }
    }
}

/// `x` multiplied by itself `k` times.
pub open spec fn power(x: real, k: int) -> real
    decreases k,
{
    if k <= 0 {
        1real
    } else {
        x * power(x, k - 1)
    }
}

/// How likely it is that of coalition `s` just the operators of `t` are up, where
/// each is up with probability `p`.
pub open spec fn chance(p: real, t: int, s: int) -> real {
    power(p, size_of(t)) * power(1real - p, size_of(s) - size_of(t))
}

/// What coalition `s` is worth on average, of `n` operators each of which is up with
/// probability `p`.
pub open spec fn expected_value(n: int, p: real, v: spec_fn(int) -> real, s: int) -> real {
    sum(
        pow2(n as nat) as int,
        |t: int|
            if is_subset(t, s) {
                chance(p, t, s) * v(t)
            } else {
                0real
            },
    )
}

/// What operator `k` adds on average to those of coalition `s` that are up.
pub open spec fn expected_addition(
    n: int,
    p: real,
    v: spec_fn(int) -> real,
    s: int,
    k: int,
) -> real {
    sum(
        pow2(n as nat) as int,
        |t: int|
            if is_subset(t, s) {
                chance(p, t, s) * (v(t + pow2(k as nat)) - v(t))
            } else {
                0real
            },
    )
}

/// The chances of a coalition that an operator joins: it is up, or it is down.
proof fn chance_joined(p: real, t: int, s: int, k: int)
    requires
        0 <= t,
        0 <= s,
        0 <= k,
        !is_member(t, k),
        !is_member(s, k),
        is_subset(t, s),
    ensures
        chance(p, t + pow2(k as nat), s + pow2(k as nat)) == p * chance(p, t, s),
        chance(p, t, s + pow2(k as nat)) == (1real - p) * chance(p, t, s),
{
    joining(t, k);
    joining(s, k);
    subset_bounds(t, s);
    let (a, b) = (size_of(t), size_of(s) - size_of(t));
    let q = 1real - p;
    let (x, y) = (power(p, a), power(q, b));
    assert(power(p, a + 1) == p * x);
    assert(power(q, b + 1) == q * y);
    assert((p * x) * y == p * (x * y)) by (nonlinear_arith);
    assert(x * (q * y) == q * (x * y)) by (nonlinear_arith);
}

/// The parts of one coalition, put together with and without an operator.
proof fn addition_term(p: real, c: real, x: real, y: real)
    ensures
        (p * c) * x + (((1real - p) * c) * y + (-1real) * (c * y)) == p * (c * (x - y)),
{
    assert((p * c) * x == p * (c * x)) by (nonlinear_arith);
    assert(((1real - p) * c) * y == c * y - p * (c * y)) by (nonlinear_arith);
    let z = c * y;
    assert((-1real) * z == -z) by (nonlinear_arith);
    assert(c * (x - y) == c * x - c * y) by (nonlinear_arith);
    let w = c * x;
    assert(p * (w - z) == p * w - p * z) by (nonlinear_arith);
}

/// What an operator adds to the average worth of a coalition is what it adds on
/// average to those of the coalition that are up, times the probability that it is
/// up itself. So drawing who is up and measuring the addition estimates the average
/// without bias.
pub proof fn drawing_estimates_the_average(
    n: int,
    p: real,
    v: spec_fn(int) -> real,
    s: int,
    k: int,
)
    requires
        0 <= k < n,
        0 <= s < pow2(n as nat),
        !is_member(s, k),
    ensures
        expected_value(n, p, v, s + pow2(k as nat)) - expected_value(n, p, v, s) == p
            * expected_addition(n, p, v, s, k),
{
    let all = pow2(n as nat) as int;
    let b = pow2(k as nat) as int;
    let larger = s + b;
    let g = |u: int|
        if is_subset(u, s) {
            (p * chance(p, u, s)) * v(u + b)
        } else {
            0real
        };
    let value = |t: int|
        if is_subset(t, larger) {
            chance(p, t, larger) * v(t)
        } else {
            0real
        };
    let with_it = |t: int|
        if is_member(t, k) {
            g(t - b)
        } else {
            0real
        };
    let moved = |t: int|
        if is_member(t, k) {
            0real
        } else {
            g(t)
        };
    let without_it = |t: int|
        if is_member(t, k) {
            0real
        } else if is_subset(t, s) {
            ((1real - p) * chance(p, t, s)) * v(t)
        } else {
            0real
        };
    let pair = |t: int| with_it(t) + without_it(t);
    assert forall|t: int| 0 <= t < all implies #[trigger] value(t) == pair(t) by {
        if is_member(t, k) {
            leaving(t, k);
            let u = t - b;
            subset_joined(u, s, k);
            if is_subset(u, s) {
                chance_joined(p, u, s, k);
            }
        } else {
            subset_joined(t, s, k);
            if is_subset(t, s) {
                chance_joined(p, t, s, k);
            }
        }
    }
    sum_same(all, value, pair);
    sum_of_sums(all, with_it, without_it);
    lemma_pow2_adds((n - k - 1) as nat, (k + 1) as nat);
    lemma_pow2_unfold((k + 1) as nat);
    let blocks = pow2((n - k - 1) as nat) as int;
    assert(all == blocks * (2 * b));
    with_and_without(blocks, k, g);
    let small = |t: int|
        if is_subset(t, s) {
            chance(p, t, s) * v(t)
        } else {
            0real
        };
    let minus = |t: int| (-1real) * small(t);
    sum_scaled(all, small, -1real);
    let x = sum(all, small);
    assert((-1real) * x == -x) by (nonlinear_arith);
    let rest = |t: int| without_it(t) + minus(t);
    sum_of_sums(all, without_it, minus);
    let total = |t: int| moved(t) + rest(t);
    sum_of_sums(all, moved, rest);
    let addition = |t: int|
        if is_subset(t, s) {
            chance(p, t, s) * (v(t + b) - v(t))
        } else {
            0real
        };
    let scaled = |t: int| p * addition(t);
    sum_scaled(all, addition, p);
    assert forall|t: int| 0 <= t < all implies #[trigger] total(t) == scaled(t) by {
        assert((-1real) * 0real == 0real) by (nonlinear_arith);
        assert(p * 0real == 0real) by (nonlinear_arith);
        if is_member(t, k) {
            leaving(t, k);
            subset_joined(t - b, s, k);
            assert(!is_subset(t, s));
        } else if is_subset(t, s) {
            addition_term(p, chance(p, t, s), v(t + b), v(t));
        }
    }
    sum_same(all, total, scaled);
}

/// A sum can be taken from the end.
pub proof fn sum_reversed(n: int, f: spec_fn(int) -> real)
    requires
        0 <= n,
    ensures
        sum(n, |i: int| f(n - 1 - i)) == sum(n, f),
    decreases n,
{
    let g = |i: int| f(n - 1 - i);
    if n > 0 {
        sum_split(1, n - 1, g);
        let tail = |i: int| g(1 + i);
        let rest = |i: int| f(n - 2 - i);
        assert forall|i: int| 0 <= i < n - 1 implies #[trigger] tail(i) == rest(i) by {}
        sum_same(n - 1, tail, rest);
        sum_reversed(n - 1, f);
        let other = |i: int| f((n - 1) - 1 - i);
        sum_same(n - 1, rest, other);
        assert(sum(1, g) == g(0)) by {
            reveal_with_fuel(sum, 2);
        }
    }
}

/// The empty coalition aside, some operator is in a coalition.
proof fn some_member(s: int, n: int) -> (k: int)
    requires
        0 < s < pow2(n as nat),
        0 <= n,
    ensures
        0 <= k < n,
        is_member(s, k),
    decreases n,
{
    if n == 0 {
        vstd::arithmetic::power2::lemma2_to64();
        0
    } else if s % 2 == 1 {
        vstd::arithmetic::power2::lemma2_to64();
        assert(s / 1 == s);
        0
    } else {
        lemma_pow2_unfold(n as nat);
        let k = some_member(s / 2, n - 1) + 1;
        member_shift(s, k);
        k
    }
}

/// The chances of all that can be up of a coalition add up to one.
pub proof fn chances_add_up(n: int, p: real, s: int)
    requires
        0 <= n,
        0 <= s < pow2(n as nat),
    ensures
        expected_value(n, p, |t: int| 1real, s) == 1real,
    decreases s,
{
    let all = pow2(n as nat) as int;
    let one = |t: int| 1real;
    if s == 0 {
        let f = |t: int|
            if is_subset(t, 0) {
                chance(p, t, 0) * one(t)
            } else {
                0real
            };
        sum_split(1, all - 1, f);
        let g = |i: int| f(1 + i);
        assert forall|i: int| 0 <= i < all - 1 implies #[trigger] g(i) == 0real by {
            if is_subset(1 + i, 0) {
                subset_bounds(1 + i, 0);
            }
        }
        sum_zero(all - 1, g);
        assert(sum(1, f) == f(0)) by {
            reveal_with_fuel(sum, 2);
        }
        assert(size_of(0) == 0);
        assert(power(p, 0) == 1real && power(1real - p, 0) == 1real);
        assert(1real * 1real == 1real) by (nonlinear_arith);
        assert(chance(p, 0, 0) == 1real);
    } else {
        let k = some_member(s, n);
        leaving(s, k);
        lemma_pow2_pos(k as nat);
        let t = s - pow2(k as nat);
        chances_add_up(n, p, t);
        drawing_estimates_the_average(n, p, one, t, k);
        let added = |u: int|
            if is_subset(u, t) {
                chance(p, u, t) * (one(u + pow2(k as nat)) - one(u))
            } else {
                0real
            };
        assert forall|u: int| 0 <= u < all implies #[trigger] added(u) == 0real by {
            let c = chance(p, u, t);
            assert(c * 0real == 0real) by (nonlinear_arith);
        }
        sum_zero(all, added);
        assert(p * 0real == 0real) by (nonlinear_arith);
    }
}

/// What operator `k` adds, summed over the orders in which the `left` operators outside
/// coalition `p` can join it and the next to join is one of the first `m`: that one is
/// either `k`, and then the others follow in any order, or another, and the rest joins
/// after it.
pub open spec fn orders_from(
    n: int,
    v: spec_fn(int) -> real,
    k: int,
    p: int,
    left: int,
    m: int,
) -> real
    decreases left, m,
{
    if left <= 0 || m <= 0 {
        0real
    } else {
        orders_from(n, v, k, p, left, m - 1) + if is_member(p, m - 1) {
            0real
        } else if m - 1 == k {
            fact(left - 1) as real * (v(p + pow2(k as nat)) - v(p))
        } else {
            orders_from(n, v, k, p + pow2((m - 1) as nat), left - 1, n)
        }
    }
}

/// What operator `k` of `n` adds, summed over all orders in which they can join.
pub open spec fn orders_total(n: int, v: spec_fn(int) -> real, k: int) -> real {
    orders_from(n, v, k, 0, n, n)
}

/// Who joins next, one after the other.
proof fn orders_by_next(
    n: int,
    v: spec_fn(int) -> real,
    k: int,
    p: int,
    left: int,
    m: int,
    direct: spec_fn(int) -> real,
)
    requires
        left > 0,
        forall|i: int|
            0 <= i < m ==> #[trigger] direct(i) == (if is_member(p, i) {
                0real
            } else if i == k {
                fact(left - 1) as real * (v(p + pow2(k as nat)) - v(p))
            } else {
                orders_from(n, v, k, p + pow2(i as nat), left - 1, n)
            }),
    ensures
        orders_from(n, v, k, p, left, m) == sum(m, direct),
    decreases m,
{
    if m > 0 {
        orders_by_next(n, v, k, p, left, m - 1, direct);
        assert(direct(m - 1) == direct(m - 1));
    }
}

/// A coalition joined by an operator is part of another just where both are.
proof fn subset_of_joined(p: int, s: int, i: int)
    requires
        0 <= p,
        0 <= s,
        0 <= i,
        !is_member(p, i),
    ensures
        is_subset(p + pow2(i as nat), s) == (is_subset(p, s) && is_member(s, i)),
    decreases i,
{
    let b = pow2(i as nat) as int;
    lemma_pow2_pos(i as nat);
    if i == 0 {
        assert(b == 1) by {
            vstd::arithmetic::power2::lemma2_to64();
        }
        assert(p / 1 == p && s / 1 == s);
        assert((p + 1) / 2 == p / 2);
        assert((p + 1) % 2 == 1);
        if p == 0 {
            assert(is_subset(0, s / 2));
        }
    } else {
        lemma_pow2_unfold(i as nat);
        let h = pow2((i - 1) as nat) as int;
        lemma_pow2_pos((i - 1) as nat);
        member_shift(p, i);
        member_shift(s, i);
        subset_of_joined(p / 2, s / 2, i - 1);
        assert((p + b) / 2 == p / 2 + h);
        assert((p + b) % 2 == p % 2);
        if p == 0 {
            assert(0int / 2 == 0);
            assert(is_subset(0, s / 2));
        }
    }
}

/// Over the operators that a coalition has beyond a part of it, a value adds up as often
/// as there are such operators.
proof fn beyond_sum(p: int, s: int, n: int, c: real)
    requires
        0 <= n,
        0 <= p,
        0 <= s < pow2(n as nat),
        is_subset(p, s),
    ensures
        sum(
            n,
            |i: int|
                if is_member(s, i) && !is_member(p, i) {
                    c
                } else {
                    0real
                },
        ) == (size_of(s) - size_of(p)) as real * c,
    decreases n,
{
    let f = |i: int|
        if is_member(s, i) && !is_member(p, i) {
            c
        } else {
            0real
        };
    subset_bounds(p, s);
    if n == 0 {
        vstd::arithmetic::power2::lemma2_to64();
        assert(s == 0 && p == 0);
        assert(0real * c == 0real) by (nonlinear_arith);
    } else {
        let (q, t) = (p / 2, s / 2);
        assert(0 <= t < pow2((n - 1) as nat)) by {
            lemma_pow2_unfold(n as nat);
        }
        assert(is_subset(q, t)) by {
            if p == 0 {
                assert(0int / 2 == 0);
            }
        }
        beyond_sum(q, t, n - 1, c);
        sum_split(1, n - 1, f);
        let g = |i: int| f(1 + i);
        let h = |i: int|
            if is_member(t, i) && !is_member(q, i) {
                c
            } else {
                0real
            };
        assert forall|i: int| 0 <= i < n - 1 implies #[trigger] g(i) == h(i) by {
            member_shift(s, 1 + i);
            member_shift(p, 1 + i);
        }
        sum_same(n - 1, g, h);
        assert(sum(1, f) == f(0)) by {
            reveal_with_fuel(sum, 2);
        }
        assert(is_member(s, 0) == (s % 2 == 1) && is_member(p, 0) == (p % 2 == 1)) by {
            vstd::arithmetic::power2::lemma2_to64();
            assert(s / 1 == s && p / 1 == p);
        }
        assert(size_of(s) == s % 2 + size_of(t)) by {
            if s == 0 {
                assert(0int / 2 == 0);
            }
        }
        assert(size_of(p) == p % 2 + size_of(q)) by {
            if p == 0 {
                assert(0int / 2 == 0);
            }
        }
        assert(p % 2 == 1 ==> s % 2 == 1);
        if s % 2 == 1 && p % 2 == 0 {
            once_more(size_of(t) - size_of(q), c);
        }
    }
}

/// A part that is as large as the whole is the whole.
proof fn part_is_whole(p: int, s: int)
    requires
        0 <= p,
        0 <= s,
        is_subset(p, s),
        size_of(p) == size_of(s),
    ensures
        p == s,
    decreases p + s,
{
    if p == 0 {
        if s > 0 {
            lemma_size_positive(s);
        }
    } else {
        subset_bounds(p / 2, s / 2);
        assert(s > 0) by {
            subset_bounds(p, s);
        }
        part_is_whole(p / 2, s / 2);
    }
}

/// A coalition that is not empty has a member.
proof fn lemma_size_positive(s: int)
    requires
        0 < s,
    ensures
        0 < size_of(s),
    decreases s,
{
    size_nonnegative(s / 2);
    if s % 2 == 0 {
        lemma_size_positive(s / 2);
    }
}

/// What operator `k` adds to coalition `s`, weighed by the orders in which those beyond
/// `p` come before it and the others after it; nothing where `s` lacks `p` or has `k`.
spec fn order_term(n: int, v: spec_fn(int) -> real, k: int, p: int, s: int) -> real {
    if is_subset(p, s) && !is_member(s, k) {
        (fact(size_of(s) - size_of(p)) as real * fact(n - size_of(s) - 1) as real) * (v(
            s + pow2(k as nat),
        ) - v(s))
    } else {
        0real
    }
}

/// The sum over orders, coalition by coalition.
proof fn orders_by_coalition(n: int, v: spec_fn(int) -> real, k: int, p: int)
    requires
        0 <= k < n,
        0 <= p < pow2(n as nat),
        !is_member(p, k),
    ensures
        orders_from(n, v, k, p, n - size_of(p), n) == sum(
            pow2(n as nat) as int,
            |s: int| order_term(n, v, k, p, s),
        ),
    decreases n - size_of(p),
{
    let all = pow2(n as nat) as int;
    size_bounds(p, n);
    not_full(p, n, k);
    let left = n - size_of(p);
    let direct = |i: int|
        if is_member(p, i) {
            0real
        } else if i == k {
            fact(left - 1) as real * (v(p + pow2(k as nat)) - v(p))
        } else {
            orders_from(n, v, k, p + pow2(i as nat), left - 1, n)
        };
    let first = |i: int, s: int|
        if is_member(p, i) {
            0real
        } else if i == k {
            if s == p {
                fact(n - size_of(p) - 1) as real * (v(p + pow2(k as nat)) - v(p))
            } else {
                0real
            }
        } else {
            order_term(n, v, k, p + pow2(i as nat), s)
        };
    let by_operator = |i: int| sum(all, |s: int| first(i, s));
    assert forall|i: int| 0 <= i < n implies #[trigger] direct(i) == by_operator(i) by {
        let row = |s: int| first(i, s);
        if is_member(p, i) {
            sum_zero(all, row);
        } else if i == k {
            single_term(all, row, p);
        } else {
            joining(p, i);
            lemma_pow2_pos(i as nat);
            let q = p + pow2(i as nat);
            joined_below(p, n, i);
            assert(!is_member(q, k));
            orders_by_coalition(n, v, k, q);
            sum_same(all, row, |s: int| order_term(n, v, k, q, s));
        }
    }
    orders_by_next(n, v, k, p, left, n, direct);
    sum_same(n, direct, by_operator);
    sum_swapped(n, all, first);
    let by_coalition = |s: int| sum(n, |i: int| first(i, s));
    let wanted = |s: int| order_term(n, v, k, p, s);
    assert forall|s: int| 0 <= s < all implies #[trigger] by_coalition(s) == wanted(s) by {
        coalition_in_orders(n, v, k, p, s, |i: int| first(i, s));
    }
    sum_same(all, by_coalition, wanted);
}

/// One term of a sum alone.
proof fn single_term(n: int, f: spec_fn(int) -> real, at: int)
    requires
        0 <= at < n,
        forall|i: int| 0 <= i < n && i != at ==> #[trigger] f(i) == 0real,
    ensures
        sum(n, f) == f(at),
    decreases n,
{
    if at == n - 1 {
        sum_zero(n - 1, f);
    } else {
        single_term(n - 1, f, at);
        assert(f(n - 1) == 0real);
    }
}

/// A coalition without an operator is not the full one.
proof fn not_full(p: int, n: int, k: int)
    requires
        0 <= k < n,
        0 <= p < pow2(n as nat),
        !is_member(p, k),
    ensures
        size_of(p) < n,
{
    size_bounds(p, n);
    joined_below(p, n, k);
    joining(p, k);
    size_bounds(p + pow2(k as nat), n);
}

/// Joining stays among the coalitions of `n` operators.
proof fn joined_below(p: int, n: int, k: int)
    requires
        0 <= k < n,
        0 <= p < pow2(n as nat),
        !is_member(p, k),
    ensures
        p + pow2(k as nat) < pow2(n as nat),
    decreases k,
{
    lemma_pow2_unfold(n as nat);
    if k == 0 {
        vstd::arithmetic::power2::lemma2_to64();
        assert(p / 1 == p);
    } else {
        lemma_pow2_unfold(k as nat);
        member_shift(p, k);
        joined_below(p / 2, n - 1, k - 1);
    }
}

/// What one coalition counts for in all orders.
proof fn coalition_in_orders(
    n: int,
    v: spec_fn(int) -> real,
    k: int,
    p: int,
    s: int,
    f: spec_fn(int) -> real,
)
    requires
        0 <= k < n,
        0 <= p < pow2(n as nat),
        0 <= s < pow2(n as nat),
        !is_member(p, k),
        forall|i: int|
            0 <= i < n ==> #[trigger] f(i) == (if is_member(p, i) {
                0real
            } else if i == k {
                if s == p {
                    fact(n - size_of(p) - 1) as real * (v(p + pow2(k as nat)) - v(p))
                } else {
                    0real
                }
            } else {
                order_term(n, v, k, p + pow2(i as nat), s)
            }),
    ensures
        sum(n, f) == order_term(n, v, k, p, s),
{
    let gain = v(s + pow2(k as nat)) - v(s);
    let m = size_of(s) - size_of(p);
    let tail = fact(n - size_of(s) - 1) as real;
    if s == p {
        // Nobody joins before `k`.
        assert forall|i: int| 0 <= i < n && i != k implies #[trigger] f(i) == 0real by {
            if !is_member(p, i) {
                subset_of_joined(p, s, i);
            }
        }
        single_term(n, f, k);
        part_of_itself(p);
        assert(fact(0) == 1);
        assert(1real * tail == tail) by (nonlinear_arith);
    } else if is_subset(p, s) && !is_member(s, k) {
        subset_bounds(p, s);
        if m == 0 {
            part_is_whole(p, s);
        }
        let c = (fact(m - 1) as real * tail) * gain;
        let g = |i: int|
            if is_member(s, i) && !is_member(p, i) {
                c
            } else {
                0real
            };
        assert forall|i: int| 0 <= i < n implies #[trigger] f(i) == g(i) by {
            if !is_member(p, i) && i != k {
                subset_of_joined(p, s, i);
                joining(p, i);
            }
        }
        sum_same(n, f, g);
        beyond_sum(p, s, n, c);
        let (x, y) = (m as real, fact(m - 1) as real);
        product_cast(m, fact(m - 1) as int);
        assert(fact(m) as real == x * y);
        assert(x * ((y * tail) * gain) == ((x * y) * tail) * gain) by (nonlinear_arith);
    } else {
        assert forall|i: int| 0 <= i < n implies #[trigger] f(i) == 0real by {
            if !is_member(p, i) && i != k {
                subset_of_joined(p, s, i);
            }
        }
        sum_zero(n, f);
    }
}

/// A coalition is part of itself.
proof fn part_of_itself(p: int)
    requires
        0 <= p,
    ensures
        is_subset(p, p),
    decreases p,
{
    if p > 0 {
        part_of_itself(p / 2);
    }
}

/// What an operator adds, summed over all orders in which the operators can join, is its
/// value times the number of orders. So the average over orders drawn at random is the
/// value.
pub proof fn orders_give_the_value(n: int, v: spec_fn(int) -> real, k: int)
    requires
        0 <= k < n,
    ensures
        orders_total(n, v, k) == weighed_value(n, v, k),
{
    let all = pow2(n as nat) as int;
    let b = pow2(k as nat) as int;
    lemma_pow2_pos(n as nat);
    lemma_pow2_pos(k as nat);
    assert(!is_member(0, k)) by {
        vstd::arithmetic::div_mod::lemma_div_basics(b);
    }
    orders_by_coalition(n, v, k, 0);
    let g = |s: int| weight_real(n, size_of(s) + 1) * (v(s + b) - v(s));
    let terms = |s: int| order_term(n, v, k, 0, s);
    let without = |s: int|
        if is_member(s, k) {
            0real
        } else {
            g(s)
        };
    assert(size_of(0) == 0);
    assert forall|s: int| 0 <= s < all implies #[trigger] terms(s) == without(s) by {
        if !is_member(s, k) {
            size_nonnegative(s);
            product_cast(fact(size_of(s)) as int, fact(n - size_of(s) - 1) as int);
        }
    }
    sum_same(all, terms, without);
    lemma_pow2_adds((n - k - 1) as nat, (k + 1) as nat);
    lemma_pow2_unfold((k + 1) as nat);
    let blocks = pow2((n - k - 1) as nat) as int;
    assert(all == blocks * (2 * b));
    with_and_without(blocks, k, g);
    let with_it = |s: int|
        if is_member(s, k) {
            g(s - b)
        } else {
            0real
        };
    let whole = |s: int|
        if is_member(s, k) {
            weight_real(n, size_of(s)) * (v(s) - v(s - pow2(k as nat)))
        } else {
            0real
        };
    assert forall|s: int| 0 <= s < all implies #[trigger] with_it(s) == whole(s) by {
        if is_member(s, k) {
            leaving(s, k);
            joining(s - b, k);
        }
    }
    sum_same(all, with_it, whole);
}

} // verus!
