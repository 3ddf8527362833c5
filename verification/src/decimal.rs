//! Fixed-precision decimal numbers.
//!
//! A `Decimal` is a coefficient and a number of decimal places. Its arithmetic, its order and its
//! texts are those of the `rust_decimal` crate; the functions at the end of this file make the
//! calls.

use vstd::arithmetic::power::pow;
use vstd::prelude::*;

verus! {

/// The largest number of decimal places.
pub const MAX_PLACES: u32 = 28;

/// The largest absolute coefficient: ninety-six bits.
pub const MAX_COEFFICIENT: i128 = 79228162514264337593543950335;

/// The number `mantissa / 10^scale`.
#[derive(Clone, Copy, Debug)]
pub struct Decimal {
    mantissa: i128,
    scale: u32,
}

/// Ten to the power `k`.
pub open spec fn pow10(k: int) -> int {
    pow(10, k as nat)
}

/// Whether an integer can be a coefficient.
pub open spec fn in_range(c: int) -> bool {
    -MAX_COEFFICIENT <= c <= MAX_COEFFICIENT
}

impl Decimal {
    /// The coefficient.
    pub closed spec fn coefficient(self) -> int {
        self.mantissa as int
    }

    /// The number of decimal places.
    pub closed spec fn places(self) -> int {
        self.scale as int
    }

    /// The decimal with the given coefficient and places.
    pub closed spec fn of(c: int, p: int) -> Decimal {
        Decimal { mantissa: c as i128, scale: p as u32 }
    }

    /// The value, as an integer count of `10^-28`.
    pub open spec fn units(self) -> int {
        self.coefficient() * pow10(MAX_PLACES - self.places())
    }

    /// Whether the parts are those of a decimal.
    #[verifier::type_invariant]
    pub open spec fn valid(self) -> bool {
        in_range(self.coefficient()) && 0 <= self.places() <= MAX_PLACES
    }
}

/// The decimal with the given parts, where they are those of one. `None` is the outcome of an
/// operation that overflows, and of every operation on such an outcome.
pub open spec fn lifted(parts: Option<(int, int)>) -> Option<Decimal> {
    match parts {
        Some((c, p)) => if in_range(c) && 0 <= p <= MAX_PLACES {
            Some(Decimal::of(c, p))
        } else {
            None
        },
        None => None,
    }
}

/// The coefficient and the places of an outcome.
pub open spec fn parts_of(d: Option<Decimal>) -> Option<(int, int)> {
    match d {
        Some(d) => Some((d.coefficient(), d.places())),
        None => None,
    }
}

/// The parts of a decimal that was read, or the text of the refusal.
pub open spec fn reading_of(r: Result<Decimal, String>) -> Result<(int, int), Seq<char>> {
    match r {
        Ok(d) => Ok((d.coefficient(), d.places())),
        Err(why) => Err(why@),
    }
}

/// The larger number of places of two decimals.
pub open spec fn common_places(a: Decimal, b: Decimal) -> int {
    if a.places() < b.places() {
        b.places()
    } else {
        a.places()
    }
}

/// The coefficient that a decimal has when it is written with `p` places.
pub open spec fn aligned(a: Decimal, p: int) -> int {
    a.coefficient() * pow10(p - a.places())
}

/// The sum, where it needs no rounding: one operand is zero, or both operands and the sum can be
/// written with the larger number of places.
pub open spec fn exact_sum(a: Decimal, b: Decimal) -> Option<Decimal> {
    let p = common_places(a, b);
    let x = aligned(a, p);
    let y = aligned(b, p);
    if a.coefficient() == 0 {
        Some(b)
    } else if b.coefficient() == 0 {
        Some(a)
    } else if in_range(x) && in_range(y) && in_range(x + y) {
        Some(Decimal::of(x + y, p))
    } else {
        None
    }
}

/// The difference, where it needs no rounding.
pub open spec fn exact_difference(a: Decimal, b: Decimal) -> Option<Decimal> {
    let p = common_places(a, b);
    let x = aligned(a, p);
    let y = aligned(b, p);
    if a.coefficient() == 0 {
        Some(negated(b))
    } else if b.coefficient() == 0 {
        Some(a)
    } else if in_range(x) && in_range(y) && in_range(x - y) {
        Some(Decimal::of(x - y, p))
    } else {
        None
    }
}

/// The product, where it needs no rounding.
pub open spec fn exact_product(a: Decimal, b: Decimal) -> Option<Decimal> {
    let c = a.coefficient() * b.coefficient();
    let p = a.places() + b.places();
    if a.coefficient() == 0 || b.coefficient() == 0 {
        Some(zero())
    } else if in_range(c) && p <= MAX_PLACES {
        Some(Decimal::of(c, p))
    } else {
        None
    }
}

/// The quotient by a divisor other than zero, where the dividend is zero or the coefficients divide
/// without remainder and the places do not become negative.
pub open spec fn exact_quotient(a: Decimal, b: Decimal) -> Option<Decimal> {
    if a.coefficient() == 0 {
        Some(zero())
    } else if a.coefficient() % b.coefficient() == 0 && a.places() >= b.places() {
        Some(Decimal::of(a.coefficient() / b.coefficient(), a.places() - b.places()))
    } else {
        None
    }
}

/// The units of one.
pub open spec fn one_units() -> int {
    pow10(MAX_PLACES as int)
}

/// Whether a decimal has exactly the value of `num / den` units.
pub open spec fn is_value(d: Decimal, num: int, den: int) -> bool {
    d.valid() && d.units() * den == num
}

/// Whether some decimal has exactly the value of `num / den` units.
pub open spec fn has_value(num: int, den: int) -> bool {
    exists|d: Decimal| is_value(d, num, den)
}

/// Whether `num / den` units are within what decimals can hold.
pub open spec fn in_reach(num: int, den: int) -> bool {
    abs_int(num) <= (MAX_COEFFICIENT - 1) * one_units() * den || has_value(num, den)
}

/// Whether a decimal is what rounding makes of `num / den` units. It is off by at most half of its
/// last place. It is off by at most half a unit, or by at most five parts in the largest coefficient
/// of the value. And where some decimal has exactly the value, so has it.
pub open spec fn is_rounded(d: Decimal, num: int, den: int) -> bool {
    let off = abs_int(d.units() * den - num);
    &&& d.valid()
    &&& 2 * off <= den * pow10(MAX_PLACES - d.places())
    &&& 2 * off <= den || MAX_COEFFICIENT * (2 * off) <= 10 * abs_int(num)
    &&& has_value(num, den) ==> d.units() * den == num
}

/// What an operation comes to whose value is `num / den` units: the decimal that is named, as long as
/// it is what rounding makes of the value.
#[verifier::opaque]
pub open spec fn outcome(named: Option<(int, int)>, num: int, den: int) -> Option<Decimal> {
    let d = lifted(named);
    if d is Some && is_rounded(d->0, num, den) {
        d
    } else if in_reach(num, den) {
        Some(choose|d: Decimal| is_rounded(d, num, den))
    } else {
        None
    }
}

/// What `a + b` comes to; `None` where it overflows.
pub open spec fn sum(a: Decimal, b: Decimal) -> Option<Decimal> {
    match exact_sum(a, b) {
        Some(d) => Some(d),
        None => outcome(
            rounded_sum(a.coefficient(), a.places(), b.coefficient(), b.places()),
            a.units() + b.units(),
            1,
        ),
    }
}

/// What `a - b` comes to; `None` where it overflows.
pub open spec fn difference(a: Decimal, b: Decimal) -> Option<Decimal> {
    match exact_difference(a, b) {
        Some(d) => Some(d),
        None => outcome(
            rounded_difference(a.coefficient(), a.places(), b.coefficient(), b.places()),
            a.units() - b.units(),
            1,
        ),
    }
}

/// What `a * b` comes to; `None` where it overflows.
pub open spec fn product(a: Decimal, b: Decimal) -> Option<Decimal> {
    match exact_product(a, b) {
        Some(d) => Some(d),
        None => outcome(
            rounded_product(a.coefficient(), a.places(), b.coefficient(), b.places()),
            a.units() * b.units(),
            one_units(),
        ),
    }
}

/// The dividend of the units of a quotient whose divisor is the absolute value of `b`.
pub open spec fn dividend(a: Decimal, b: Decimal) -> int {
    if b.coefficient() < 0 {
        -(a.units() * one_units())
    } else {
        a.units() * one_units()
    }
}

/// What `a / b` comes to; `None` where `b` is zero or the quotient overflows.
pub open spec fn quotient(a: Decimal, b: Decimal) -> Option<Decimal> {
    if b.coefficient() == 0 {
        None
    } else {
        match exact_quotient(a, b) {
            Some(d) => Some(d),
            None => outcome(
                rounded_quotient(a.coefficient(), a.places(), b.coefficient(), b.places()),
                dividend(a, b),
                abs_int(b.units()),
            ),
        }
    }
}

/// Whether `d` times `b` has exactly the value of `a`.
pub open spec fn is_quotient(a: Decimal, b: Decimal, d: Decimal) -> bool {
    d.valid() && d.units() * b.units() == a.units() * one_units()
}

/// Whether some decimal times `b` has exactly the value of `a`.
pub open spec fn divides_evenly(a: Decimal, b: Decimal) -> bool {
    b.coefficient() != 0 && exists|d: Decimal| is_quotient(a, b, d)
}

/// Whether no digit of `a + b` is rounded.
pub open spec fn sum_is_exact(a: Decimal, b: Decimal) -> bool {
    sum(a, b) matches Some(r) ==> r.units() == a.units() + b.units()
}

/// Whether no digit of `a - b` is rounded.
pub open spec fn difference_is_exact(a: Decimal, b: Decimal) -> bool {
    difference(a, b) matches Some(r) ==> r.units() == a.units() - b.units()
}

/// Whether no digit of `a * b` is rounded.
pub open spec fn product_is_exact(a: Decimal, b: Decimal) -> bool {
    product(a, b) matches Some(r) ==> r.units() * one_units() == a.units() * b.units()
}

/// Whether no digit of `a / b` is rounded.
pub open spec fn quotient_is_exact(a: Decimal, b: Decimal) -> bool {
    quotient(a, b) matches Some(r) ==> r.units() * b.units() == a.units() * one_units()
}

/// `sum` over outcomes.
pub open spec fn plus(x: Option<Decimal>, y: Option<Decimal>) -> Option<Decimal> {
    match (x, y) {
        (Some(a), Some(b)) => sum(a, b),
        _ => None,
    }
}

/// `difference` over outcomes.
pub open spec fn minus(x: Option<Decimal>, y: Option<Decimal>) -> Option<Decimal> {
    match (x, y) {
        (Some(a), Some(b)) => difference(a, b),
        _ => None,
    }
}

/// `product` over outcomes.
pub open spec fn times(x: Option<Decimal>, y: Option<Decimal>) -> Option<Decimal> {
    match (x, y) {
        (Some(a), Some(b)) => product(a, b),
        _ => None,
    }
}

/// `quotient` over outcomes.
pub open spec fn over(x: Option<Decimal>, y: Option<Decimal>) -> Option<Decimal> {
    match (x, y) {
        (Some(a), Some(b)) => quotient(a, b),
        _ => None,
    }
}

/// Zero without decimal places.
pub open spec fn zero() -> Decimal {
    Decimal::of(0, 0)
}

/// An integer without decimal places.
pub open spec fn whole(n: int) -> Decimal {
    Decimal::of(n, 0)
}

/// The same number of places, the opposite coefficient.
pub open spec fn negated(a: Decimal) -> Decimal {
    Decimal::of(-a.coefficient(), a.places())
}

/// The same number of places, the absolute coefficient.
pub open spec fn magnitude(a: Decimal) -> Decimal {
    if a.coefficient() < 0 {
        negated(a)
    } else {
        a
    }
}

/// The smaller of two decimals; the first where they are equal in value.
pub open spec fn smaller(a: Decimal, b: Decimal) -> Decimal {
    if b.units() < a.units() {
        b
    } else {
        a
    }
}

/// The digit of a number below ten.
pub open spec fn digit_char(d: int) -> char {
    (48 + d) as char
}

/// The decimal digits of a number, without leading zeros.
pub open spec fn whole_digits(n: int) -> Seq<char>
    decreases n,
{
    if n < 10 {
        seq![digit_char(n)]
    } else {
        whole_digits(n / 10).push(digit_char(n % 10))
    }
}

/// The last `w` decimal digits of a number.
pub open spec fn fixed_digits(n: int, w: int) -> Seq<char>
    decreases w,
{
    if w <= 0 {
        Seq::empty()
    } else {
        fixed_digits(n / 10, w - 1).push(digit_char(n % 10))
    }
}

/// The sign that stands before a coefficient.
pub open spec fn sign_text(c: int) -> Seq<char> {
    if c < 0 {
        seq!['-']
    } else {
        Seq::empty()
    }
}

/// The absolute value of an integer.
pub open spec fn abs_int(c: int) -> int {
    if c < 0 {
        -c
    } else {
        c
    }
}

/// A decimal as text, with all of its places.
pub open spec fn plain_text(d: Decimal) -> Seq<char> {
    let a = abs_int(d.coefficient());
    let whole_part = sign_text(d.coefficient()) + whole_digits(a / pow10(d.places()));
    if d.places() == 0 {
        whole_part
    } else {
        whole_part + seq!['.'] + fixed_digits(a % pow10(d.places()), d.places())
    }
}

/// A decimal as text with two places: further places are cut off, missing ones are zeros.
pub open spec fn two_place_text(d: Decimal) -> Seq<char> {
    let a = abs_int(d.coefficient());
    sign_text(d.coefficient()) + whole_digits(a / pow10(d.places())) + seq!['.'] + fixed_digits(
        (a * 100) / pow10(d.places()),
        2,
    )
}

/// The coefficient and the places of a number once the zeros at its end are dropped.
pub open spec fn shortest_parts(c: int, p: int) -> (int, int)
    decreases p,
{
    if p > 0 && c % 10 == 0 {
        shortest_parts(c / 10, p - 1)
    } else {
        (c, p)
    }
}

/// The decimal of the same value with the fewest places.
pub open spec fn shortest(d: Decimal) -> Decimal {
    let parts = shortest_parts(d.coefficient(), d.places());
    Decimal::of(parts.0, parts.1)
}

/// A decimal as text, with no more places than its value needs.
pub open spec fn short_text(d: Decimal) -> Seq<char> {
    plain_text(shortest(d))
}

/// `short_text` of a decimal that may be missing.
pub open spec fn short_text_of(d: Option<Decimal>) -> Option<Seq<char>> {
    match d {
        Some(d) => Some(short_text(d)),
        None => None,
    }
}

/// What a text stands for, or why it is no decimal.
pub open spec fn parsed(text: Seq<char>) -> Result<Decimal, Seq<char>> {
    match parsed_number(text) {
        Ok((c, p)) => Ok(Decimal::of(c, p)),
        Err(why) => Err(why),
    }
}

/// A decimal is its coefficient and its places.
pub broadcast proof fn lemma_parts(d: Decimal)
    ensures
        Decimal::of(#[trigger] d.coefficient(), #[trigger] d.places()) == d,
{
}

/// The parts of a decimal made of a coefficient and places.
pub broadcast proof fn lemma_of(c: int, p: int)
    requires
        in_range(c),
        0 <= p <= MAX_PLACES,
    ensures
        (#[trigger] Decimal::of(c, p)).coefficient() == c,
        Decimal::of(c, p).places() == p,
        Decimal::of(c, p).valid(),
{
}

pub broadcast group group_decimal {
    lemma_parts,
    lemma_of,
}

/// A power of ten is positive, and powers add up.
proof fn lemma_pow10(i: int, j: int)
    requires
        i >= 0,
        j >= 0,
    ensures
        pow10(i) > 0,
        pow10(i + j) == pow10(i) * pow10(j),
{
    vstd::arithmetic::power::lemma_pow_positive(10, i as nat);
    vstd::arithmetic::power::lemma_pow_adds(10, i as nat, j as nat);
}

/// Writing a decimal with more places does not change its value.
pub proof fn lemma_aligned(a: Decimal, p: int)
    requires
        a.valid(),
        a.places() <= p <= MAX_PLACES,
    ensures
        aligned(a, p) * pow10(MAX_PLACES - p) == a.units(),
{
    let x = p - a.places();
    let y = MAX_PLACES - p;
    lemma_pow10(x, y);
    assert(a.coefficient() * pow10(x) * pow10(y) == a.coefficient() * (pow10(x) * pow10(y)))
        by (nonlinear_arith);
}

/// A decimal is zero in value exactly where its coefficient is, and is below zero exactly where its
/// coefficient is.
pub proof fn law_sign_of_value(a: Decimal)
    requires
        a.valid(),
    ensures
        a.units() == 0 <==> a.coefficient() == 0,
        a.units() < 0 <==> a.coefficient() < 0,
{
    let t = pow10(MAX_PLACES - a.places());
    lemma_pow10(MAX_PLACES - a.places(), 0);
    let c = a.coefficient();
    assert(c * t == 0 <==> c == 0) by (nonlinear_arith)
        requires
            t > 0,
    ;
    assert(c * t < 0 <==> c < 0) by (nonlinear_arith)
        requires
            t > 0,
    ;
}

/// A sum that needs no rounding has the sum of the values.
pub proof fn law_exact_sum_value(a: Decimal, b: Decimal)
    requires
        a.valid(),
        b.valid(),
        exact_sum(a, b) is Some,
    ensures
        sum(a, b) == exact_sum(a, b),
        sum(a, b)->0.valid(),
        sum(a, b)->0.units() == a.units() + b.units(),
{
    broadcast use group_decimal;

    law_sign_of_value(a);
    law_sign_of_value(b);
    let p = common_places(a, b);
    lemma_aligned(a, p);
    lemma_aligned(b, p);
    let t = pow10(MAX_PLACES - p);
    let x = aligned(a, p);
    let y = aligned(b, p);
    assert((x + y) * t == x * t + y * t) by (nonlinear_arith);
}

/// A difference that needs no rounding has the difference of the values.
pub proof fn law_exact_difference_value(a: Decimal, b: Decimal)
    requires
        a.valid(),
        b.valid(),
        exact_difference(a, b) is Some,
    ensures
        difference(a, b) == exact_difference(a, b),
        difference(a, b)->0.valid(),
        difference(a, b)->0.units() == a.units() - b.units(),
{
    broadcast use group_decimal;

    law_sign_of_value(a);
    law_sign_of_value(b);
    law_negated_value(b);
    let p = common_places(a, b);
    lemma_aligned(a, p);
    lemma_aligned(b, p);
    let t = pow10(MAX_PLACES - p);
    let x = aligned(a, p);
    let y = aligned(b, p);
    assert((x - y) * t == x * t - y * t) by (nonlinear_arith);
}

/// A product that needs no rounding has the product of the values.
pub proof fn law_exact_product_value(a: Decimal, b: Decimal)
    requires
        a.valid(),
        b.valid(),
        exact_product(a, b) is Some,
    ensures
        product(a, b) == exact_product(a, b),
        product(a, b)->0.valid(),
        product(a, b)->0.units() * one_units() == a.units() * b.units(),
{
    broadcast use group_decimal;

    law_sign_of_value(a);
    law_sign_of_value(b);
    let (x, y) = (a.coefficient(), b.coefficient());
    if x == 0 || y == 0 {
        law_sign_of_value(zero());
        assert(a.units() * b.units() == 0) by (nonlinear_arith)
            requires
                a.units() == 0 || b.units() == 0,
        ;
    } else {
        let i = MAX_PLACES - a.places();
        let j = MAX_PLACES - b.places();
        let k = MAX_PLACES - a.places() - b.places();
        lemma_pow10(i, j);
        lemma_pow10(k, MAX_PLACES as int);
        let (ti, tj, tk, tm) = (pow10(i), pow10(j), pow10(k), pow10(MAX_PLACES as int));
        assert(i + j == k + MAX_PLACES);
        assert((x * y) * tk * tm == (x * ti) * (y * tj)) by (nonlinear_arith)
            requires
                ti * tj == tk * tm,
        ;
    }
}

/// A value within reach can be rounded.
proof fn lemma_rounding_exists(num: int, den: int)
    requires
        den > 0,
        in_reach(num, den),
    ensures
        exists|d: Decimal| is_rounded(d, num, den),
{
    if has_value(num, den) {
        let d = choose|d: Decimal| is_value(d, num, den);
        lemma_exact_is_rounded(d, num, den);
    } else {
        let one = one_units();
        lemma_pow10(MAX_PLACES as int, 0);
        let m = MAX_COEFFICIENT as int;
        assert(abs_int(num) <= m * (one * den)) by (nonlinear_arith)
            requires
                abs_int(num) <= (m - 1) * one * den,
                one > 0,
                den > 0,
        ;
        assert(pow10(MAX_PLACES - 0) == one);
        lemma_round_at(num, den, MAX_PLACES as int);
    }
}

/// A decimal of exactly the value is what rounding makes of it.
proof fn lemma_exact_is_rounded(d: Decimal, num: int, den: int)
    requires
        den > 0,
        is_value(d, num, den),
    ensures
        is_rounded(d, num, den),
        in_reach(num, den),
{
    lemma_pow10(MAX_PLACES - d.places(), 0);
    let t = pow10(MAX_PLACES - d.places());
    assert(0 <= den * t) by (nonlinear_arith)
        requires
            den > 0,
            t > 0,
    ;
}

/// The value rounded to `p` places, or to as many as fit.
proof fn lemma_round_at(num: int, den: int, p: int)
    requires
        den > 0,
        0 <= p <= MAX_PLACES,
        !has_value(num, den),
        abs_int(num) <= MAX_COEFFICIENT * (pow10(MAX_PLACES as int) * den),
        p < MAX_PLACES ==> abs_int(num) > MAX_COEFFICIENT * (pow10(MAX_PLACES - p - 1) * den),
    ensures
        exists|d: Decimal| is_rounded(d, num, den),
    decreases p,
{
    broadcast use group_decimal;

    let t = pow10(MAX_PLACES - p);
    let w = t * den;
    let m = MAX_COEFFICIENT as int;
    lemma_pow10(MAX_PLACES - p, 0);
    assert(w > 0) by (nonlinear_arith)
        requires
            w == t * den,
            t > 0,
            den > 0,
    ;
    if abs_int(num) > m * w {
        if p == 0 {
            assert(pow10(MAX_PLACES - p) == pow10(MAX_PLACES as int));
        } else {
            assert(MAX_PLACES - (p - 1) - 1 == MAX_PLACES - p);
            lemma_round_at(num, den, p - 1);
        }
    } else {
        let (q, rem) = (num / w, num % w);
        vstd::arithmetic::div_mod::lemma_fundamental_div_mod(num, w);
        assert(0 <= rem < w) by {
            vstd::arithmetic::div_mod::lemma_mod_bound(num, w);
        }
        let c = if 2 * rem < w {
            q
        } else {
            q + 1
        };
        assert(num == w * q + rem);
        assert(c * w - num == if 2 * rem < w { -rem } else { w - rem }) by (nonlinear_arith)
            requires
                num == w * q + rem,
                c == if 2 * rem < w { q } else { q + 1 },
        ;
        assert(-m <= c <= m) by (nonlinear_arith)
            requires
                -(m * w) <= num <= m * w,
                num == w * q + rem,
                0 <= rem < w,
                c == if 2 * rem < w { q } else { q + 1 },
                w > 0,
        ;
        let d = Decimal::of(c, p);
        assert(d.units() * den == c * w) by (nonlinear_arith)
            requires
                d.units() == c * t,
                w == t * den,
        ;
        let off = abs_int(c * w - num);
        assert(2 * off <= w);
        assert(den * t == w) by (nonlinear_arith)
            requires
                w == t * den,
        ;
        if p == MAX_PLACES {
            vstd::arithmetic::power::lemma_pow0(10);
            assert(w == den) by (nonlinear_arith)
                requires
                    w == t * den,
                    t == 1,
            ;
        } else {
            let u = pow10(MAX_PLACES - p - 1);
            lemma_pow10(1, MAX_PLACES - p - 1);
            vstd::arithmetic::power::lemma_pow1(10);
            assert(t == 10 * u);
            assert(m * (2 * off) <= 10 * abs_int(num)) by (nonlinear_arith)
                requires
                    2 * off <= w,
                    w == t * den,
                    t == 10 * u,
                    abs_int(num) > m * (u * den),
                    m > 0,
            ;
        }
        assert(is_rounded(d, num, den));
    }
}

/// What an operation comes to is what rounding makes of its value, and is there where the value is
/// within reach.
proof fn lemma_outcome(named: Option<(int, int)>, num: int, den: int)
    requires
        den > 0,
    ensures
        outcome(named, num, den) matches Some(d) ==> is_rounded(d, num, den),
        in_reach(num, den) ==> outcome(named, num, den) is Some,
{
    reveal(outcome);
    if in_reach(num, den) {
        lemma_rounding_exists(num, den);
    }
}

/// A sum is what rounding makes of the sum of the values, and is there where that is within reach.
pub proof fn law_sum_is_rounded(a: Decimal, b: Decimal)
    requires
        a.valid(),
        b.valid(),
    ensures
        sum(a, b) matches Some(d) ==> is_rounded(d, a.units() + b.units(), 1),
        in_reach(a.units() + b.units(), 1) ==> sum(a, b) is Some,
{
    if exact_sum(a, b) is Some {
        law_exact_sum_value(a, b);
        lemma_exact_is_rounded(sum(a, b)->0, a.units() + b.units(), 1);
    } else {
        lemma_outcome(
            rounded_sum(a.coefficient(), a.places(), b.coefficient(), b.places()),
            a.units() + b.units(),
            1,
        );
    }
}

/// A difference is what rounding makes of the difference of the values, and is there where that is
/// within reach.
pub proof fn law_difference_is_rounded(a: Decimal, b: Decimal)
    requires
        a.valid(),
        b.valid(),
    ensures
        difference(a, b) matches Some(d) ==> is_rounded(d, a.units() - b.units(), 1),
        in_reach(a.units() - b.units(), 1) ==> difference(a, b) is Some,
{
    if exact_difference(a, b) is Some {
        law_exact_difference_value(a, b);
        lemma_exact_is_rounded(difference(a, b)->0, a.units() - b.units(), 1);
    } else {
        lemma_outcome(
            rounded_difference(a.coefficient(), a.places(), b.coefficient(), b.places()),
            a.units() - b.units(),
            1,
        );
    }
}

/// A product is what rounding makes of the product of the values, and is there where that is within
/// reach.
pub proof fn law_product_is_rounded(a: Decimal, b: Decimal)
    requires
        a.valid(),
        b.valid(),
    ensures
        product(a, b) matches Some(d) ==> is_rounded(d, a.units() * b.units(), one_units()),
        in_reach(a.units() * b.units(), one_units()) ==> product(a, b) is Some,
{
    lemma_pow10(MAX_PLACES as int, 0);
    if exact_product(a, b) is Some {
        law_exact_product_value(a, b);
        lemma_exact_is_rounded(product(a, b)->0, a.units() * b.units(), one_units());
    } else {
        lemma_outcome(
            rounded_product(a.coefficient(), a.places(), b.coefficient(), b.places()),
            a.units() * b.units(),
            one_units(),
        );
    }
}

/// A quotient by anything but zero is what rounding makes of the quotient of the values, and is there
/// where that is within reach.
pub proof fn law_quotient_is_rounded(a: Decimal, b: Decimal)
    requires
        a.valid(),
        b.valid(),
        b.coefficient() != 0,
    ensures
        quotient(a, b) matches Some(d) ==> is_rounded(d, dividend(a, b), abs_int(b.units())),
        in_reach(dividend(a, b), abs_int(b.units())) ==> quotient(a, b) is Some,
        abs_int(a.units()) <= (MAX_COEFFICIENT - 1) * abs_int(b.units()) ==> quotient(a, b) is Some,
{
    law_sign_of_value(b);
    lemma_pow10(MAX_PLACES as int, 0);
    let (x, y, one, m) = (
        abs_int(a.units()),
        abs_int(b.units()),
        one_units(),
        MAX_COEFFICIENT - 1,
    );
    assert(abs_int(dividend(a, b)) == x * one) by (nonlinear_arith)
        requires
            dividend(a, b) == a.units() * one || dividend(a, b) == -(a.units() * one),
            one > 0,
            x == abs_int(a.units()),
    ;
    assert(x <= m * y ==> x * one <= m * one * y) by (nonlinear_arith)
        requires
            one > 0,
    ;
    if exact_quotient(a, b) is Some {
        lemma_exact_quotient(a, b);
        lemma_quotient_is_value(a, b, quotient(a, b)->0);
        lemma_exact_is_rounded(quotient(a, b)->0, dividend(a, b), abs_int(b.units()));
    } else {
        lemma_outcome(
            rounded_quotient(a.coefficient(), a.places(), b.coefficient(), b.places()),
            dividend(a, b),
            abs_int(b.units()),
        );
    }
}

/// To be the quotient is to have its value.
proof fn lemma_quotient_is_value(a: Decimal, b: Decimal, d: Decimal)
    requires
        b.valid(),
    ensures
        is_quotient(a, b, d) <==> is_value(d, dividend(a, b), abs_int(b.units())),
{
    law_sign_of_value(b);
    let (x, y) = (d.units(), b.units());
    assert(x * (-y) == -(x * y)) by (nonlinear_arith);
}

/// A quotient whose value some decimal has is there, and has that value.
pub proof fn law_even_quotient_value(a: Decimal, b: Decimal)
    requires
        a.valid(),
        b.valid(),
        divides_evenly(a, b),
    ensures
        quotient(a, b) is Some,
        is_quotient(a, b, quotient(a, b)->0),
{
    let d = choose|d: Decimal| is_quotient(a, b, d);
    lemma_quotient_is_value(a, b, d);
    law_quotient_is_rounded(a, b);
    lemma_quotient_is_value(a, b, quotient(a, b)->0);
}

/// A quotient of coefficients that divide is a decimal and has the value of the quotient.
proof fn lemma_exact_quotient(a: Decimal, b: Decimal)
    requires
        a.valid(),
        b.valid(),
        b.coefficient() != 0,
        exact_quotient(a, b) is Some,
    ensures
        is_quotient(a, b, exact_quotient(a, b)->0),
{
    broadcast use group_decimal;

    law_sign_of_value(a);
    if a.coefficient() == 0 {
        law_sign_of_value(zero());
        assert(0 * b.units() == 0 * one_units());
    } else {
        let (x, y) = (a.coefficient(), b.coefficient());
        let c = x / y;
        vstd::arithmetic::div_mod::lemma_fundamental_div_mod(x, y);
        assert(x == c * y) by (nonlinear_arith)
            requires
                x == y * c + 0,
        ;
        assert(abs_int(c) <= abs_int(x)) by (nonlinear_arith)
            requires
                x == c * y,
                y != 0,
        ;
        let p = a.places() - b.places();
        let (i, j, k) = (MAX_PLACES - p, MAX_PLACES - b.places(), MAX_PLACES - a.places());
        lemma_pow10(i, j);
        lemma_pow10(k, MAX_PLACES as int);
        assert(i + j == k + MAX_PLACES);
        let (ti, tj, tk, tm) = (pow10(i), pow10(j), pow10(k), one_units());
        assert((c * ti) * (y * tj) == (x * tk) * tm) by (nonlinear_arith)
            requires
                x == c * y,
                ti * tj == tk * tm,
        ;
    }
}

/// What decimals come to is a decimal.
pub proof fn lemma_outcomes_valid(a: Decimal, b: Decimal)
    requires
        a.valid(),
        b.valid(),
    ensures
        sum(a, b) matches Some(d) ==> d.valid(),
        difference(a, b) matches Some(d) ==> d.valid(),
        product(a, b) matches Some(d) ==> d.valid(),
        quotient(a, b) matches Some(d) ==> d.valid(),
{
    broadcast use group_decimal;

    law_sum_is_rounded(a, b);
    law_difference_is_rounded(a, b);
    law_product_is_rounded(a, b);
    if b.coefficient() != 0 {
        law_quotient_is_rounded(a, b);
    }
}

/// The opposite decimal has the opposite value.
pub proof fn law_negated_value(a: Decimal)
    requires
        a.valid(),
    ensures
        negated(a).valid(),
        negated(a).units() == -a.units(),
{
    broadcast use group_decimal;

    let c = a.coefficient();
    let t = pow10(MAX_PLACES - a.places());
    assert((-c) * t == -(c * t)) by (nonlinear_arith);
}

/// A decimal less itself is zero.
pub proof fn law_difference_with_itself(a: Decimal)
    requires
        a.valid(),
    ensures
        difference(a, a) is Some,
        difference(a, a)->0.coefficient() == 0,
{
    broadcast use group_decimal;

    assert(pow10(0) == 1) by {
        vstd::arithmetic::power::lemma_pow0(10);
    }
}

proof fn lemma_shortest_parts(c: int, p: int)
    requires
        0 <= p <= MAX_PLACES,
        in_range(c),
    ensures
        ({
            let r = shortest_parts(c, p);
            &&& 0 <= r.1 <= p
            &&& in_range(r.0)
            &&& r.0 * pow10(MAX_PLACES - r.1) == c * pow10(MAX_PLACES - p)
            &&& r.1 == 0 || r.0 % 10 != 0
        }),
    decreases p,
{
    if p > 0 && c % 10 == 0 {
        lemma_shortest_parts(c / 10, p - 1);
        lemma_pow10(1, MAX_PLACES - p);
        vstd::arithmetic::power::lemma_pow1(10);
        let t = pow10(MAX_PLACES - p);
        let e = c / 10;
        assert(e * (10 * t) == (e * 10) * t) by (nonlinear_arith);
        assert(pow10(MAX_PLACES - (p - 1)) == 10 * t);
    }
}

/// Dropping the zeros at the end of the places keeps the value and leaves none of them.
pub proof fn law_shortest_value(a: Decimal)
    requires
        a.valid(),
    ensures
        shortest(a).valid(),
        shortest(a).units() == a.units(),
        shortest(a).places() == 0 || shortest(a).coefficient() % 10 != 0,
{
    broadcast use group_decimal;

    lemma_shortest_parts(a.coefficient(), a.places());
}

/// The text with two places tells the value alone: its whole part, and its hundredths cut off.
pub proof fn law_two_places_of_value(a: Decimal)
    requires
        a.valid(),
    ensures
        two_place_text(a) == sign_text(a.units()) + whole_digits(abs_int(a.units()) / one_units())
            + seq!['.'] + fixed_digits((abs_int(a.units()) * 100) / one_units(), 2),
{
    let (c, p) = (a.coefficient(), a.places());
    let (t, w, x) = (pow10(MAX_PLACES - p), pow10(p), abs_int(c));
    law_sign_of_value(a);
    lemma_pow10(p, MAX_PLACES - p);
    lemma_pow10(MAX_PLACES - p, 0);
    assert(one_units() == t * w) by (nonlinear_arith)
        requires
            one_units() == w * t,
    ;
    assert(abs_int(a.units()) == t * x) by (nonlinear_arith)
        requires
            a.units() == c * t,
            x == abs_int(c),
            t > 0,
    ;
    assert((t * x) * 100 == t * (x * 100)) by (nonlinear_arith);
    vstd::arithmetic::div_mod::lemma_div_multiples_vanish_quotient(t, x, w);
    vstd::arithmetic::div_mod::lemma_div_multiples_vanish_quotient(t, x * 100, w);
}

/// Decimals of equal value have the same texts.
pub proof fn law_equal_values_equal_texts(a: Decimal, b: Decimal)
    requires
        a.valid(),
        b.valid(),
        a.units() == b.units(),
    ensures
        shortest(a) == shortest(b),
        short_text(a) == short_text(b),
        two_place_text(a) == two_place_text(b),
{
    broadcast use group_decimal;

    law_two_places_of_value(a);
    law_two_places_of_value(b);

    law_shortest_value(a);
    law_shortest_value(b);
    if shortest(a).places() < shortest(b).places() {
        lemma_shortest_unique(shortest(b), shortest(a));
    } else {
        lemma_shortest_unique(shortest(a), shortest(b));
    }
}

proof fn lemma_shortest_unique(x: Decimal, y: Decimal)
    requires
        x.valid(),
        y.valid(),
        x.units() == y.units(),
        y.places() <= x.places(),
        x.places() == 0 || x.coefficient() % 10 != 0,
        y.places() == 0 || y.coefficient() % 10 != 0,
    ensures
        x == y,
{
    broadcast use group_decimal;

    let d = x.places() - y.places();
    lemma_aligned(y, x.places());
    let t = pow10(MAX_PLACES - x.places());
    lemma_pow10(MAX_PLACES - x.places(), 0);
    let (c, e) = (x.coefficient(), aligned(y, x.places()));
    assert(c == e) by (nonlinear_arith)
        requires
            c * t == e * t,
            t > 0,
    ;
    if d > 0 {
        lemma_pow10(1, d - 1);
        vstd::arithmetic::power::lemma_pow1(10);
        let f = y.coefficient();
        let g = pow10(d - 1);
        assert(f * (10 * g) == 10 * (f * g)) by (nonlinear_arith);
        assert(pow10(d) == 10 * g);
        let h = f * g;
        assert(c == 10 * h);
        assert((10 * h) % 10 == 0);
    } else {
        vstd::arithmetic::power::lemma_pow0(10);
        let f = y.coefficient();
        let one = pow10(d);
        assert(f * one == f) by (nonlinear_arith)
            requires
                one == 1,
        ;
        assert(Decimal::of(x.coefficient(), x.places()) == Decimal::of(
            y.coefficient(),
            y.places(),
        ));
    }
}

impl Decimal {
    /// Zero.
    pub fn zero() -> (r: Decimal)
        ensures
            r == zero(),
            r.valid(),
            r.units() == 0,
    {
        broadcast use group_decimal;

        Decimal { mantissa: 0, scale: 0 }
    }

    /// An integer.
    pub fn from_int(n: i64) -> (r: Decimal)
        ensures
            r == whole(n as int),
            r.coefficient() == n,
            r.places() == 0,
    {
        broadcast use group_decimal;

        Decimal { mantissa: n as i128, scale: 0 }
    }

    /// The decimal `coefficient / 10^places`, where there is one.
    pub fn from_parts(coefficient: i128, places: u32) -> (r: Option<Decimal>)
        ensures
            r is Some <==> in_range(coefficient as int) && places <= MAX_PLACES,
            r matches Some(d) ==> d.coefficient() == coefficient && d.places() == places,
    {
        if -MAX_COEFFICIENT <= coefficient && coefficient <= MAX_COEFFICIENT && places
            <= MAX_PLACES {
            Some(Decimal { mantissa: coefficient, scale: places })
        } else {
            None
        }
    }

    /// Reads a decimal from text.
    pub fn parse(text: &str) -> (r: Result<Decimal, String>)
        ensures
            r is Ok <==> parsed(text@) is Ok,
            r matches Ok(d) ==> parsed(text@) == Ok::<Decimal, Seq<char>>(d) && d.valid(),
            r matches Err(why) ==> parsed(text@) == Err::<Decimal, Seq<char>>(why@),
    {
        broadcast use group_decimal;

        read_number(text)
    }

    /// Whether the value is zero.
    pub fn is_zero(self) -> (r: bool)
        ensures
            r == (self.coefficient() == 0),
    {
        self.mantissa == 0
    }

    /// Whether the value is not below zero.
    pub fn is_sign_positive(self) -> (r: bool)
        ensures
            r == (self.coefficient() >= 0),
    {
        self.mantissa >= 0
    }

    /// The opposite number.
    pub fn negate(self) -> (r: Decimal)
        ensures
            r == negated(self),
    {
        broadcast use group_decimal;

        proof {
            use_type_invariant(self);
        }
        Decimal { mantissa: -self.mantissa, scale: self.scale }
    }

    /// The absolute value.
    pub fn abs(self) -> (r: Decimal)
        ensures
            r == magnitude(self),
    {
        if self.mantissa < 0 {
            self.negate()
        } else {
            self
        }
    }

    /// Whether this value is below another.
    pub fn less(self, other: Decimal) -> (r: bool)
        ensures
            r == (self.units() < other.units()),
    {
        proof {
            use_type_invariant(self);
            use_type_invariant(other);
        }
        is_less(self, other)
    }

    /// The smaller of two values.
    pub fn min(self, other: Decimal) -> (r: Decimal)
        ensures
            r == smaller(self, other),
    {
        if other.less(self) {
            other
        } else {
            self
        }
    }

    /// `self + other`, or `None` where it overflows.
    pub fn checked_add(self, other: Decimal) -> (r: Option<Decimal>)
        ensures
            r == sum(self, other),
    {
        broadcast use group_decimal;

        proof {
            reveal(outcome);
            use_type_invariant(self);
            use_type_invariant(other);
        }
        add_decimals(self, other)
    }

    /// `self - other`, or `None` where it overflows.
    pub fn checked_sub(self, other: Decimal) -> (r: Option<Decimal>)
        ensures
            r == difference(self, other),
    {
        broadcast use group_decimal;

        proof {
            reveal(outcome);
            use_type_invariant(self);
            use_type_invariant(other);
        }
        subtract_decimals(self, other)
    }

    /// `self * other`, or `None` where it overflows.
    pub fn checked_mul(self, other: Decimal) -> (r: Option<Decimal>)
        ensures
            r == product(self, other),
    {
        broadcast use group_decimal;

        proof {
            reveal(outcome);
            use_type_invariant(self);
            use_type_invariant(other);
        }
        multiply_decimals(self, other)
    }

    /// `self / other`, or `None` where `other` is zero or the quotient overflows.
    pub fn checked_div(self, other: Decimal) -> (r: Option<Decimal>)
        ensures
            r == quotient(self, other),
    {
        broadcast use group_decimal;

        proof {
            reveal(outcome);
            use_type_invariant(self);
            use_type_invariant(other);
        }
        divide_decimals(self, other)
    }

    /// The value as text, with no more places than it needs.
    pub fn to_text(self) -> (r: String)
        ensures
            r@ == short_text(self),
    {
        proof {
            use_type_invariant(self);
        }
        let short = drop_trailing_zeros(self);
        write_number(short)
    }

    /// The value as text, cut or filled to two places.
    pub fn to_two_places(self) -> (r: String)
        ensures
            r@ == two_place_text(self),
    {
        proof {
            use_type_invariant(self);
        }
        write_two_places(self)
    }
}

impl PartialEq for Decimal {
    /// Decimals are equal where their values are.
    fn eq(&self, other: &Decimal) -> (r: bool) {
        !self.less(*other) && !other.less(*self)
    }
}

impl vstd::std_specs::cmp::PartialEqSpecImpl for Decimal {
    open spec fn obeys_eq_spec() -> bool {
        true
    }

    open spec fn eq_spec(&self, other: &Decimal) -> bool {
        self.units() == other.units()
    }
}

/// What rounding makes of a sum that `exact_sum` leaves open.
pub uninterp spec fn rounded_sum(ac: int, ap: int, bc: int, bp: int) -> Option<(int, int)>;

/// What rounding makes of a difference that `exact_difference` leaves open.
pub uninterp spec fn rounded_difference(ac: int, ap: int, bc: int, bp: int) -> Option<(int, int)>;

/// What rounding makes of a product that `exact_product` leaves open.
pub uninterp spec fn rounded_product(ac: int, ap: int, bc: int, bp: int) -> Option<(int, int)>;

/// What rounding makes of a quotient that `exact_quotient` leaves open.
pub uninterp spec fn rounded_quotient(ac: int, ap: int, bc: int, bp: int) -> Option<(int, int)>;

/// The coefficient and the places that a text stands for, or the message of its refusal.
pub uninterp spec fn parsed_number(text: Seq<char>) -> Result<(int, int), Seq<char>>;

/// `rust_decimal::Decimal::checked_add`. Where neither an operand nor the sum outgrows the
/// coefficient at the larger number of places, the sum is exact and has that many places; a zero
/// operand hands the other operand back. Otherwise the outcome, which may be an overflow, is
/// `rounded_sum`. Every result is what rounding makes of the sum of the values, and there is one
/// where that is within reach.
#[verifier::external_body]
fn add_decimals(a: Decimal, b: Decimal) -> (r: Option<Decimal>)
    requires
        a.valid(),
        b.valid(),
    ensures
        r matches Some(d) ==> d.valid(),
        exact_sum(a, b) is Some ==> r == exact_sum(a, b),
        exact_sum(a, b) is None ==> parts_of(r) == rounded_sum(
            a.coefficient(),
            a.places(),
            b.coefficient(),
            b.places(),
        ),
        r is Some ==> is_rounded(r->0, a.units() + b.units(), 1),
        in_reach(a.units() + b.units(), 1) ==> r is Some,
{
    let x = rust_decimal::Decimal::from_i128_with_scale(a.mantissa, a.scale);
    let y = rust_decimal::Decimal::from_i128_with_scale(b.mantissa, b.scale);
    match x.checked_add(y) {
        Some(d) => Some(Decimal { mantissa: d.mantissa(), scale: d.scale() }),
        None => None,
    }
}

/// `rust_decimal::Decimal::checked_sub`. As `checked_add`, of the difference: zero less a decimal
/// is its opposite, a decimal less zero is itself, and where `exact_difference` leaves the outcome
/// open it is `rounded_difference`. Every result is what rounding makes of the difference of the
/// values, and there is one where that is within reach.
#[verifier::external_body]
fn subtract_decimals(a: Decimal, b: Decimal) -> (r: Option<Decimal>)
    requires
        a.valid(),
        b.valid(),
    ensures
        r matches Some(d) ==> d.valid(),
        exact_difference(a, b) is Some ==> r == exact_difference(a, b),
        exact_difference(a, b) is None ==> parts_of(r) == rounded_difference(
            a.coefficient(),
            a.places(),
            b.coefficient(),
            b.places(),
        ),
        r is Some ==> is_rounded(r->0, a.units() - b.units(), 1),
        in_reach(a.units() - b.units(), 1) ==> r is Some,
{
    let x = rust_decimal::Decimal::from_i128_with_scale(a.mantissa, a.scale);
    let y = rust_decimal::Decimal::from_i128_with_scale(b.mantissa, b.scale);
    match x.checked_sub(y) {
        Some(d) => Some(Decimal { mantissa: d.mantissa(), scale: d.scale() }),
        None => None,
    }
}

/// `rust_decimal::Decimal::checked_mul`. A zero factor gives zero without places. Where the product
/// of the coefficients and the sum of the places are those of a decimal, they are the result's.
/// Otherwise the outcome, which may be an overflow, is `rounded_product`. Every result is what
/// rounding makes of the product of the values, and there is one where that is within reach.
#[verifier::external_body]
fn multiply_decimals(a: Decimal, b: Decimal) -> (r: Option<Decimal>)
    requires
        a.valid(),
        b.valid(),
    ensures
        r matches Some(d) ==> d.valid(),
        exact_product(a, b) is Some ==> r == exact_product(a, b),
        exact_product(a, b) is None ==> parts_of(r) == rounded_product(
            a.coefficient(),
            a.places(),
            b.coefficient(),
            b.places(),
        ),
        r is Some ==> is_rounded(r->0, a.units() * b.units(), one_units()),
        in_reach(a.units() * b.units(), one_units()) ==> r is Some,
{
    let x = rust_decimal::Decimal::from_i128_with_scale(a.mantissa, a.scale);
    let y = rust_decimal::Decimal::from_i128_with_scale(b.mantissa, b.scale);
    match x.checked_mul(y) {
        Some(d) => Some(Decimal { mantissa: d.mantissa(), scale: d.scale() }),
        None => None,
    }
}

/// `rust_decimal::Decimal::checked_div`. A zero divisor gives `None`, and a zero dividend gives zero
/// without places. Where the coefficients divide without remainder and the dividend has at least
/// the places of the divisor, the result has their quotient and the difference of the places.
/// Otherwise the outcome, which may be an overflow, is `rounded_quotient`. Every result is what
/// rounding makes of the quotient of the values, and there is one where that is within reach.
#[verifier::external_body]
fn divide_decimals(a: Decimal, b: Decimal) -> (r: Option<Decimal>)
    requires
        a.valid(),
        b.valid(),
    ensures
        r matches Some(d) ==> d.valid(),
        b.coefficient() == 0 ==> r is None,
        b.coefficient() != 0 && exact_quotient(a, b) is Some ==> r == exact_quotient(a, b),
        b.coefficient() != 0 && exact_quotient(a, b) is None ==> parts_of(r) == rounded_quotient(
            a.coefficient(),
            a.places(),
            b.coefficient(),
            b.places(),
        ),
        b.coefficient() != 0 && r is Some ==> is_rounded(
            r->0,
            dividend(a, b),
            abs_int(b.units()),
        ),
        b.coefficient() != 0 && in_reach(dividend(a, b), abs_int(b.units())) ==> r is Some,
{
    let x = rust_decimal::Decimal::from_i128_with_scale(a.mantissa, a.scale);
    let y = rust_decimal::Decimal::from_i128_with_scale(b.mantissa, b.scale);
    match x.checked_div(y) {
        Some(d) => Some(Decimal { mantissa: d.mantissa(), scale: d.scale() }),
        None => None,
    }
}

/// `rust_decimal::Decimal`'s `<`: it compares the values, whatever the places.
#[verifier::external_body]
fn is_less(a: Decimal, b: Decimal) -> (r: bool)
    requires
        a.valid(),
        b.valid(),
    ensures
        r == (a.units() < b.units()),
{
    rust_decimal::Decimal::from_i128_with_scale(a.mantissa, a.scale)
        < rust_decimal::Decimal::from_i128_with_scale(b.mantissa, b.scale)
}

/// `rust_decimal::Decimal::normalize`: drops the zeros at the end of the places.
#[verifier::external_body]
fn drop_trailing_zeros(a: Decimal) -> (r: Decimal)
    requires
        a.valid(),
    ensures
        r == shortest(a),
        r.valid(),
{
    let d = rust_decimal::Decimal::from_i128_with_scale(a.mantissa, a.scale).normalize();
    Decimal { mantissa: d.mantissa(), scale: d.scale() }
}

/// `rust_decimal::Decimal`'s `Display`: the sign of a number below zero, the whole part, and, where
/// there are places, a point and all of them.
#[verifier::external_body]
fn write_number(a: Decimal) -> (r: String)
    requires
        a.valid(),
    ensures
        r@ == plain_text(a),
{
    rust_decimal::Decimal::from_i128_with_scale(a.mantissa, a.scale).to_string()
}

/// `rust_decimal::Decimal`'s `Display` with the precision two: further places are cut off without
/// rounding, missing ones are filled with zeros.
#[verifier::external_body]
fn write_two_places(a: Decimal) -> (r: String)
    requires
        a.valid(),
    ensures
        r@ == two_place_text(a),
{
    format!("{:.2}", rust_decimal::Decimal::from_i128_with_scale(a.mantissa, a.scale))
}

/// `rust_decimal::Decimal`'s `FromStr`: the number that the text stands for, or the message of the
/// error, as `parsed_number` names them.
#[verifier::external_body]
fn read_number(text: &str) -> (r: Result<Decimal, String>)
    ensures
        r matches Ok(d) ==> d.valid(),
        reading_of(r) == parsed_number(text@),
{
    match text.parse::<rust_decimal::Decimal>() {
        Ok(d) => Ok(Decimal { mantissa: d.mantissa(), scale: d.scale() }),
        Err(e) => Err(e.to_string()),
    }
}

} // verus!
