//! How numbers and names are compared and written.
use crate::constants::city_code;
use crate::quantity::{counts_are_numbers, counts_once, key_of, units_grow, whole, Real};
use crate::text::{digit_char, first_at_unique, lex_less, numeral, place};
use vstd::arithmetic::power2::{lemma_pow2_pos, pow2};
use vstd::prelude::*;

verus! {

/// The pattern is of no number: all bits of the exponent are set, and some below them.
pub open spec fn is_no_number(x: Real) -> bool {
    &&& (x.bits / 0x10_0000_0000_0000) % 2048 == 2047
    &&& x.bits % 0x10_0000_0000_0000 != 0
}

/// The sign is set.
pub open spec fn has_sign(x: Real) -> bool {
    x.bits >= 0x8000_0000_0000_0000
}

/// The pattern without its sign.
pub open spec fn size(x: Real) -> int {
    x.bits as int % 0x8000_0000_0000_0000
}

/// Numbers compare by sign and size; a pattern that is of no number is less than none, more
/// than none and equal to none; and the two zeros are equal.
pub proof fn numbers_compare(a: Real, b: Real)
    ensures
        a.nan() == is_no_number(a),
        a.less_than(b) <==> !is_no_number(a) && !is_no_number(b) && if has_sign(a) {
            if has_sign(b) {
                size(a) > size(b)
            } else {
                size(a) > 0 || size(b) > 0
            }
        } else {
            !has_sign(b) && size(a) < size(b)
        },
        a.equal_to(b) <==> !is_no_number(a) && !is_no_number(b) && (a.bits == b.bits || size(a) == 0
            && size(b) == 0),
{
}

/// Turning a number round changes its sign alone, and turns comparisons round.
pub proof fn turning_round(a: Real, b: Real)
    ensures
        size(a.turned()) == size(a),
        has_sign(a.turned()) == !has_sign(a),
        a.turned().turned() == a,
        a.turned().less_than(b.turned()) == b.less_than(a),
{
}

/// Of two finite numbers without sign the smaller pattern stands for fewer units.
pub proof fn patterns_follow_units(a: Real, b: Real)
    requires
        a.finite() && !a.negative(),
        b.finite() && !b.negative(),
    ensures
        a.less_than(b) <==> a.units() < b.units(),
{
    if a.bits < b.bits {
        units_grow(a, b);
    } else if b.bits < a.bits {
        units_grow(b, a);
    }
}

/// Counts are numbers in their order, without gaps in what they stand for: zero and one are
/// the patterns of these, and each stands for so many times what one does.
pub proof fn counts_keep_their_order(m: int, n: int)
    requires
        0 <= m <= u32::MAX,
        0 <= n <= u32::MAX,
    ensures
        m < n <==> whole(m).less_than(whole(n)),
        whole(n).units() == n * whole(1).units(),
        whole(0).bits == 0,
        whole(1).bits == 0x3FF0_0000_0000_0000,
{
    counts_are_numbers(m);
    counts_are_numbers(n);
    counts_are_numbers(0);
    counts_are_numbers(1);
    lemma_pow2_pos(1074);
    let u = pow2(1074) as int;
    assert(1 * u == u) by (nonlinear_arith);
    assert(m < n <==> m * u < n * u) by (nonlinear_arith)
        requires
            u > 0,
    ;
    patterns_follow_units(whole(m), whole(n));
    let zero = Real { bits: 0 };
    assert(0 * u == 0) by (nonlinear_arith);
    counts_once(zero, 0);
    let one = Real { bits: 0x3FF0_0000_0000_0000 };
    assert(one.exponent() == 1023 && one.fraction() == 0);
    vstd::arithmetic::power2::lemma_pow2_adds(52, 1022);
    vstd::arithmetic::power2::lemma2_to64();
    vstd::arithmetic::power2::lemma2_to64_rest();
    assert(one.units() == u);
    counts_once(one, 1);
}

/// Two numbers have one key just where they are written alike but for the sign of zero.
pub proof fn keys_are_patterns(a: Real, b: Real)
    ensures
        key_of(a) == key_of(b) <==> a.bits == b.bits || size(a) == 0 && size(b) == 0,
{
}

/// One name comes before another: at the first place where they differ it has the character
/// of the lower number, or it ends there and the other goes on.
pub open spec fn comes_before(a: Seq<char>, b: Seq<char>) -> bool {
    exists|i: int|
        0 <= i <= a.len() && i < b.len() && #[trigger] a.take(i) == b.take(i) && (i == a.len() || (
        a[i] as int) < (b[i] as int))
}

/// The order of names goes by their characters.
pub proof fn names_go_by_characters(a: Seq<char>, b: Seq<char>)
    ensures
        lex_less(a, b) <==> comes_before(a, b),
    decreases a.len(),
{
    if b.len() == 0 {
    } else if a.len() == 0 {
        assert(a.take(0) =~= b.take(0));
        assert(comes_before(a, b));
    } else if a[0] != b[0] {
        if lex_less(a, b) {
            assert(a.take(0) =~= b.take(0));
            assert(comes_before(a, b));
        }
        if comes_before(a, b) {
            let i = choose|i: int|
                0 <= i <= a.len() && i < b.len() && #[trigger] a.take(i) == b.take(i) && (i
                    == a.len() || (a[i] as int) < (b[i] as int));
            if i > 0 {
                assert(a.take(i)[0] == b.take(i)[0]);
            }
        }
    } else {
        let (x, y) = (a.drop_first(), b.drop_first());
        names_go_by_characters(x, y);
        if comes_before(x, y) {
            let i = choose|i: int|
                0 <= i <= x.len() && i < y.len() && #[trigger] x.take(i) == y.take(i) && (i
                    == x.len() || (x[i] as int) < (y[i] as int));
            assert(a.take(i + 1) =~= b.take(i + 1)) by {
                assert forall|k: int| 0 <= k < i + 1 implies #[trigger] a[k] == b[k] by {
                    if k > 0 {
                        assert(x.take(i)[k - 1] == y.take(i)[k - 1]);
                    }
                }
            }
            assert(comes_before(a, b));
        }
        if comes_before(a, b) {
            let i = choose|i: int|
                0 <= i <= a.len() && i < b.len() && #[trigger] a.take(i) == b.take(i) && (i
                    == a.len() || (a[i] as int) < (b[i] as int));
            assert(i > 0);
            assert(x.take(i - 1) =~= y.take(i - 1)) by {
                assert forall|k: int| 0 <= k < i - 1 implies #[trigger] x[k] == y[k] by {
                    assert(a.take(i)[k + 1] == b.take(i)[k + 1]);
                }
            }
            assert(comes_before(x, y));
        }
    }
}

/// What figures stand for, read in tens.
pub open spec fn value_of(figures: Seq<char>) -> int
    decreases figures.len(),
{
    if figures.len() == 0 {
        0
    } else {
        10 * value_of(figures.drop_last()) + (figures.last() as int - 48)
    }
}

/// A numeral is made of figures, stands for its number, and does not begin with zero but for
/// that of zero.
pub proof fn numerals_stand_for_numbers(n: nat)
    ensures
        value_of(numeral(n)) == n,
        numeral(n).len() > 0,
        forall|i: int|
            0 <= i < numeral(n).len() ==> 48 <= (#[trigger] numeral(n)[i]) as int <= 57,
        n > 0 ==> numeral(n)[0] != '0',
    decreases n,
{
    let s = numeral(n);
    if n < 10 {
        assert(s.drop_last() =~= Seq::empty());
        assert(value_of(s.drop_last()) == 0);
        assert(s.last() == digit_char(n as int));
    } else {
        numerals_stand_for_numbers(n / 10);
        let front = numeral(n / 10);
        assert(s.drop_last() =~= front);
        assert(s.last() == digit_char((n % 10) as int));
        assert forall|i: int| 0 <= i < s.len() implies 48 <= (#[trigger] s[i]) as int <= 57 by {
            if i < front.len() {
                assert(s[i] == front[i]);
            }
        }
    }
}

/// The place of a name in a list is the first where it stands.
pub proof fn places_are_first(names: Seq<Seq<char>>, p: int)
    requires
        0 <= p < names.len(),
        forall|k: int| 0 <= k < p ==> #[trigger] names[k] != names[p],
    ensures
        place(names, names[p]) == p,
{
    first_at_unique(names, names[p], p);
}

/// The code of a city is the first three characters of a name, of any name that has three.
pub proof fn codes_have_three_characters(name: Seq<char>, rest: Seq<char>, code: Seq<char>)
    ensures
        city_code(name) is Some <==> name.len() >= 3,
        code.len() == 3 ==> city_code(code + rest) == Some(code),
        city_code(name) matches Some(c) ==> c.len() == 3 && name == c + name.skip(3),
{
    if code.len() == 3 {
        assert((code + rest).take(3) =~= code);
    }
    if name.len() >= 3 {
        assert(name =~= name.take(3) + name.skip(3));
    }
}

} // verus!
