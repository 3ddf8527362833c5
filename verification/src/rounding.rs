//! Facts about decimals and about what rounding makes of a value.

use crate::decimal::{
    abs_int, difference, dividend, exact_difference, exact_product, exact_quotient, exact_sum,
    group_decimal, has_value, in_reach, is_rounded, is_value, law_negated_value,
    law_product_is_rounded, law_shortest_value, law_sign_of_value, magnitude, negated, one_units,
    outcome, parsed, parsed_number, plain_text, pow10, product, quotient, rounded_difference,
    rounded_product, rounded_quotient, rounded_sum, short_text, shortest, smaller, sum, whole,
    whole_digits, zero, Decimal, MAX_COEFFICIENT, MAX_PLACES,
};
use crate::position::lemma_one_units;
use vstd::prelude::*;
use vstd::std_specs::cmp::PartialEqSpec;

verus! {

/// The smaller of two decimals is one of them and not above either; of two equal ones it is the first.
pub proof fn law_smaller_of_two(a: Decimal, b: Decimal)
    ensures
        smaller(a, b) == a || smaller(a, b) == b,
        smaller(a, b).units() <= a.units(),
        smaller(a, b).units() <= b.units(),
        a.units() == b.units() ==> smaller(a, b) == a,
{
}

/// The absolute value of a decimal has its value without the sign, and its places.
pub proof fn law_magnitude_value(a: Decimal)
    requires
        a.valid(),
    ensures
        magnitude(a).valid(),
        magnitude(a).units() == if a.units() < 0 {
            -a.units()
        } else {
            a.units()
        },
        magnitude(a).places() == a.places(),
{
    broadcast use group_decimal;

    law_sign_of_value(a);
    law_negated_value(a);
}

/// The opposite of a decimal has the opposite value, and its places.
pub proof fn law_opposite_value(a: Decimal)
    requires
        a.valid(),
    ensures
        negated(a).valid(),
        negated(a).units() == -a.units(),
        negated(a).places() == a.places(),
{
    broadcast use group_decimal;

    law_negated_value(a);
}

/// Decimals are equal exactly where their values are, whatever their places.
pub proof fn law_equal_decimals(a: Decimal, b: Decimal)
    ensures
        a.eq_spec(&b) <==> a.units() == b.units(),
{
}

/// Nothing is divided by zero.
pub proof fn law_no_quotient_by_zero(a: Decimal, b: Decimal)
    requires
        b.valid(),
        b.units() == 0,
    ensures
        quotient(a, b) is None,
{
    law_sign_of_value(b);
}

/// Whether an outcome has the parts that were named for it, as long as these are what rounding makes
/// of the value.
pub open spec fn is_as_named(
    d: Option<Decimal>,
    named: Option<(int, int)>,
    num: int,
    den: int,
) -> bool {
    named matches Some((c, p)) ==> forall|e: Decimal|
        e.coefficient() == c && e.places() == p && #[trigger] is_rounded(e, num, den) ==> d == Some(e)
}

/// Where a sum, a difference, a product or a quotient is not written down exactly, it is the one that
/// the arithmetic of the decimals names.
pub proof fn law_rounded_outcomes_are_as_named(a: Decimal, b: Decimal)
    ensures
        exact_sum(a, b) is None ==> is_as_named(
            sum(a, b),
            rounded_sum(a.coefficient(), a.places(), b.coefficient(), b.places()),
            a.units() + b.units(),
            1,
        ),
        exact_difference(a, b) is None ==> is_as_named(
            difference(a, b),
            rounded_difference(a.coefficient(), a.places(), b.coefficient(), b.places()),
            a.units() - b.units(),
            1,
        ),
        exact_product(a, b) is None ==> is_as_named(
            product(a, b),
            rounded_product(a.coefficient(), a.places(), b.coefficient(), b.places()),
            a.units() * b.units(),
            one_units(),
        ),
        b.coefficient() != 0 && exact_quotient(a, b) is None ==> is_as_named(
            quotient(a, b),
            rounded_quotient(a.coefficient(), a.places(), b.coefficient(), b.places()),
            dividend(a, b),
            abs_int(b.units()),
        ),
{
    broadcast use group_decimal;

    reveal(outcome);
}

/// The short text of a decimal is that of a decimal of the same value whose places do not end with a
/// zero.
pub proof fn law_short_text(a: Decimal)
    requires
        a.valid(),
    ensures
        exists|e: Decimal|
            {
                &&& e.valid()
                &&& e.units() == a.units()
                &&& e.places() == 0 || e.coefficient() % 10 != 0
                &&& short_text(a) == #[trigger] plain_text(e)
            },
{
    law_shortest_value(a);
    assert(short_text(a) == plain_text(shortest(a)));
}

/// A text stands for the decimal with the parts that are read from it, and is refused where they
/// cannot be read.
pub proof fn law_parsed_number(text: Seq<char>)
    ensures
        parsed(text) is Ok <==> parsed_number(text) is Ok,
        parsed(text) matches Err(why) ==> parsed_number(text) == Err::<(int, int), Seq<char>>(why),
        parsed_number(text) matches Ok((c, p)) ==> -MAX_COEFFICIENT <= c <= MAX_COEFFICIENT && 0 <= p
            <= MAX_PLACES ==> parsed(text)->Ok_0.coefficient() == c && parsed(text)->Ok_0.places()
            == p,
{
    broadcast use group_decimal;

}

/// The number that decimal digits stand for.
pub open spec fn digits_value(digits: Seq<char>) -> int
    decreases digits.len(),
{
    if digits.len() == 0 {
        0
    } else {
        digits_value(digits.drop_last()) * 10 + (digits.last() as int - '0' as int)
    }
}

/// The digits of a number stand for it, and do not begin with a zero unless the number is zero.
pub proof fn law_digits_stand_for_the_number(n: int)
    requires
        n >= 0,
    ensures
        digits_value(whole_digits(n)) == n,
        whole_digits(n).len() > 0,
        forall|i: int|
            0 <= i < whole_digits(n).len() ==> '0' <= #[trigger] whole_digits(n)[i] <= '9',
        n > 0 ==> whole_digits(n)[0] != '0',
    decreases n,
{
    reveal_with_fuel(digits_value, 2);
    let d = whole_digits(n);
    if n < 10 {
        assert(d.drop_last() =~= Seq::empty());
    } else {
        let e = whole_digits(n / 10);
        law_digits_stand_for_the_number(n / 10);
        assert(d.drop_last() =~= e);
        assert(d[0] == e[0]);
        assert forall|i: int| 0 <= i < d.len() implies '0' <= #[trigger] d[i] <= '9' by {
            if i < e.len() {
                assert(d[i] == e[i]);
            }
        }
    }
}

/// What rounding makes of a value is, with the sign turned, what it makes of the opposite value.
pub proof fn lemma_rounded_opposite(d: Decimal, num: int, den: int)
    requires
        is_rounded(d, num, den),
    ensures
        is_rounded(negated(d), -num, den),
{
    broadcast use group_decimal;

    law_negated_value(d);
    let x = d.units();
    assert((-x) * den == -(x * den)) by (nonlinear_arith);
    if has_value(-num, den) {
        lemma_opposite_value(-num, den);
    }
}

proof fn lemma_opposite_value(num: int, den: int)
    requires
        has_value(num, den),
    ensures
        has_value(-num, den),
{
    let e = choose|e: Decimal| is_value(e, num, den);
    law_negated_value(e);
    let y = e.units();
    assert((-y) * den == -(y * den)) by (nonlinear_arith);
    assert(is_value(negated(e), -num, den));
}

/// The opposite of what is within reach is.
pub proof fn lemma_opposite_in_reach(num: int, den: int)
    requires
        in_reach(num, den),
    ensures
        in_reach(-num, den),
{
    if has_value(num, den) {
        lemma_opposite_value(num, den);
    }
}

/// Zero is within reach.
pub proof fn lemma_zero_in_reach()
    ensures
        in_reach(0, 1),
        has_value(0, 1),
        zero().valid(),
        zero().units() == 0,
{
    broadcast use group_decimal;

    law_sign_of_value(zero());
    assert(is_value(zero(), 0, 1));
}

/// A whole number of units is rounded to zero exactly where it is zero, and keeps its sign.
pub proof fn lemma_rounded_sign(d: Decimal, num: int)
    requires
        is_rounded(d, num, 1),
    ensures
        d.units() == 0 <==> num == 0,
        d.units() < 0 <==> num < 0,
        d.coefficient() == 0 <==> num == 0,
{
    lemma_zero_in_reach();
    law_sign_of_value(d);
    let off = abs_int(d.units() - num);
    let m = MAX_COEFFICIENT as int;
    assert(2 * off <= 1 || m * (2 * off) <= 10 * abs_int(num));
    if num != 0 {
        assert(off < abs_int(num)) by (nonlinear_arith)
            requires
                2 * off <= 1 || m * (2 * off) <= 10 * abs_int(num),
                m == 79228162514264337593543950335,
                abs_int(num) >= 1,
                off >= 0,
        ;
    }
}

/// What a product with one or minus one comes to.
pub proof fn lemma_times_sign(a: Decimal, s: int)
    requires
        a.valid(),
        s == 1 || s == -1,
    ensures
        product(a, whole(s)) is Some,
        product(a, whole(s))->0.valid(),
        product(a, whole(s))->0.units() == if s == 1 {
            a.units()
        } else {
            -a.units()
        },
{
    broadcast use group_decimal;

    let one = one_units();
    lemma_one_units();
    law_product_is_rounded(a, whole(s));
    law_negated_value(a);
    let w = if s == 1 {
        a
    } else {
        negated(a)
    };
    assert(pow10(MAX_PLACES - 0) == one);
    assert(whole(s).units() == s * one);
    let (x, y) = (a.units(), w.units());
    assert(y * one == x * (s * one)) by (nonlinear_arith)
        requires
            y == if s == 1 { x } else { -x },
            s == 1 || s == -1,
    ;
    assert(is_value(w, a.units() * whole(s).units(), one));
    let r = product(a, whole(s))->0;
    let z = r.units();
    assert(z == y) by (nonlinear_arith)
        requires
            z * one == y * one,
            one > 0,
    ;
}

} // verus!
