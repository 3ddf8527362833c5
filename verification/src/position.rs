//! What is held of each symbol, and how a fill changes it.

use crate::decimal::{
    abs_int, aligned, common_places, difference, difference_is_exact, exact_difference, exact_sum,
    group_decimal, law_difference_with_itself, law_exact_difference_value, law_exact_sum_value,
    law_negated_value, law_sign_of_value, lemma_outcomes_valid, magnitude, minus, negated, one_units,
    over, plus, pow10, product, product_is_exact, quotient_is_exact, smaller, sum, sum_is_exact,
    times, whole, zero, Decimal, MAX_PLACES,
};
use vstd::prelude::*;

verus! {

/// What is held of one symbol: a quantity above zero is owned, one below zero is owed.
#[derive(Clone, Copy, Debug)]
pub struct PositionInner {
    pub qty: Decimal,
    pub avg_cost: Decimal,
    pub realized_pnl: Decimal,
}

/// A symbol and what is held of it.
#[derive(Debug)]
pub struct PositionEntry {
    pub symbol: String,
    pub position: PositionInner,
}

/// Nothing held, nothing earned.
pub open spec fn flat() -> PositionInner {
    PositionInner { qty: zero(), avg_cost: zero(), realized_pnl: zero() }
}

/// Whether a fill does not work against what is held.
pub open spec fn same_direction(p: PositionInner, signed_qty: Decimal) -> bool {
    p.qty.coefficient() == 0 || (p.qty.coefficient() >= 0) == (signed_qty.coefficient() >= 0)
}

/// A position that a fill adds to: the cost is averaged over the old and the new quantity. `None`
/// where the arithmetic overflows.
pub open spec fn grown(p: PositionInner, signed_qty: Decimal, price: Decimal) -> Option<
    PositionInner,
> {
    let total_cost = plus(
        times(Some(p.avg_cost), Some(magnitude(p.qty))),
        times(Some(price), Some(magnitude(signed_qty))),
    );
    match sum(p.qty, signed_qty) {
        None => None,
        Some(qty) => match over(total_cost, Some(magnitude(qty))) {
            None => None,
            Some(avg_cost) => Some(PositionInner { qty, avg_cost, realized_pnl: p.realized_pnl }),
        },
    }
}

/// How much of a position a fill against it closes.
pub open spec fn closed_qty(p: PositionInner, signed_qty: Decimal) -> Decimal {
    smaller(magnitude(signed_qty), magnitude(p.qty))
}

/// One for an owned quantity, minus one for an owed one.
pub open spec fn direction(p: PositionInner) -> Decimal {
    if p.qty.coefficient() >= 0 {
        whole(1)
    } else {
        whole(-1)
    }
}

/// A position that a fill works against. What is closed earns the difference between the price and
/// the average cost. Where the fill is larger than the position, the rest of it opens a position the
/// other way at its own price. `None` where the arithmetic overflows.
pub open spec fn reduced(p: PositionInner, signed_qty: Decimal, price: Decimal) -> Option<
    PositionInner,
> {
    let close = closed_qty(p, signed_qty);
    let dir = direction(p);
    let earned = times(times(minus(Some(price), Some(p.avg_cost)), Some(close)), Some(dir));
    let realized = plus(Some(p.realized_pnl), earned);
    let kept = minus(Some(p.qty), times(Some(close), Some(dir)));
    let leftover = difference(magnitude(signed_qty), close);
    match (realized, kept, leftover) {
        (Some(realized_pnl), Some(qty), Some(rest)) => if rest.coefficient() == 0 {
            let avg_cost = if qty.coefficient() == 0 {
                zero()
            } else {
                p.avg_cost
            };
            Some(PositionInner { qty, avg_cost, realized_pnl })
        } else {
            let qty = if signed_qty.coefficient() >= 0 {
                rest
            } else {
                negated(rest)
            };
            Some(PositionInner { qty, avg_cost: price, realized_pnl })
        },
        _ => None,
    }
}

/// A position after a fill of a quantity other than zero. `None` where the arithmetic overflows.
pub open spec fn after_fill(p: PositionInner, signed_qty: Decimal, price: Decimal) -> Option<
    PositionInner,
> {
    if same_direction(p, signed_qty) {
        grown(p, signed_qty, price)
    } else {
        reduced(p, signed_qty, price)
    }
}

/// What is held of a symbol after a fill. A fill of nothing changes nothing; the first fill of a
/// symbol starts from nothing held. `None` where the arithmetic overflows.
pub open spec fn held_after(
    held: Option<PositionInner>,
    signed_qty: Decimal,
    price: Decimal,
) -> Option<Option<PositionInner>> {
    if signed_qty.coefficient() == 0 {
        Some(held)
    } else {
        let from = match held {
            Some(p) => p,
            None => flat(),
        };
        match after_fill(from, signed_qty, price) {
            Some(p) => Some(Some(p)),
            None => None,
        }
    }
}

impl PositionInner {
    /// Nothing held.
    pub fn flat() -> (r: PositionInner)
        ensures
            r == flat(),
    {
        PositionInner {
            qty: Decimal::zero(),
            avg_cost: Decimal::zero(),
            realized_pnl: Decimal::zero(),
        }
    }

    /// This position after a fill, or `None` where the arithmetic overflows.
    pub fn apply_fill(self, signed_qty: Decimal, price: Decimal) -> (r: Option<PositionInner>)
        ensures
            r == after_fill(self, signed_qty, price),
    {
        let same = self.qty.is_zero() || (self.qty.is_sign_positive()
            == signed_qty.is_sign_positive());
        if same {
            let held_cost = self.avg_cost.checked_mul(self.qty.abs())?;
            let fill_cost = price.checked_mul(signed_qty.abs())?;
            let total_cost = held_cost.checked_add(fill_cost)?;
            let qty = self.qty.checked_add(signed_qty)?;
            let avg_cost = total_cost.checked_div(qty.abs())?;
            return Some(PositionInner { qty, avg_cost, realized_pnl: self.realized_pnl });
        }
        let close = signed_qty.abs().min(self.qty.abs());
        let dir = if self.qty.is_sign_positive() {
            Decimal::from_int(1)
        } else {
            Decimal::from_int(-1)
        };
        let gain = price.checked_sub(self.avg_cost)?;
        let earned = gain.checked_mul(close)?.checked_mul(dir)?;
        let realized_pnl = self.realized_pnl.checked_add(earned)?;
        let closed = close.checked_mul(dir)?;
        let kept = self.qty.checked_sub(closed)?;
        let rest = signed_qty.abs().checked_sub(close)?;
        if rest.is_zero() {
            let avg_cost = if kept.is_zero() {
                Decimal::zero()
            } else {
                self.avg_cost
            };
            Some(PositionInner { qty: kept, avg_cost, realized_pnl })
        } else {
            let qty = if signed_qty.is_sign_positive() {
                rest
            } else {
                rest.negate()
            };
            Some(PositionInner { qty, avg_cost: price, realized_pnl })
        }
    }
}

/// What is held of a symbol after a fill, or `None` where the arithmetic overflows.
pub fn fill_held(held: Option<PositionInner>, signed_qty: Decimal, price: Decimal) -> (r: Option<
    Option<PositionInner>,
>)
    ensures
        r == held_after(held, signed_qty, price),
{
    if signed_qty.is_zero() {
        return Some(held);
    }
    let from = match held {
        Some(p) => p,
        None => PositionInner::flat(),
    };
    let p = from.apply_fill(signed_qty, price)?;
    Some(Some(p))
}

/// A decimal other than zero times one is itself, times minus one its opposite.
proof fn lemma_times_one(a: Decimal)
    requires
        a.valid(),
        a.coefficient() != 0,
    ensures
        product(a, whole(1)) == Some(a),
        product(a, whole(-1)) == Some(negated(a)),
{
    broadcast use group_decimal;

    assert(a.coefficient() * 1 == a.coefficient());
    assert(a.coefficient() * (-1) == -a.coefficient());
}

/// The absolute value of a decimal, by its parts and by its value.
proof fn lemma_magnitude(a: Decimal)
    requires
        a.valid(),
    ensures
        magnitude(a).valid(),
        magnitude(a).places() == a.places(),
        magnitude(a).coefficient() == abs_int(a.coefficient()),
        magnitude(a).units() == abs_int(a.units()),
{
    broadcast use group_decimal;

    law_sign_of_value(a);
    law_negated_value(a);
}

/// Alignment keeps signs: the opposite decimal aligns to the opposite coefficient.
proof fn lemma_aligned_negated(a: Decimal, p: int)
    requires
        a.valid(),
    ensures
        aligned(negated(a), p) == -aligned(a, p),
{
    broadcast use group_decimal;

    let (c, t) = (a.coefficient(), pow10(p - a.places()));
    assert((-c) * t == -(c * t)) by (nonlinear_arith);
}

/// A fill that needs no rounding moves the quantity held by the quantity filled, whether it adds to
/// the position, closes part of it or turns it round.
pub proof fn law_fill_moves_quantity(p: PositionInner, signed_qty: Decimal, price: Decimal)
    requires
        p.qty.valid(),
        signed_qty.valid(),
        signed_qty.coefficient() != 0,
        exact_sum(p.qty, signed_qty) is Some,
        after_fill(p, signed_qty, price) is Some,
    ensures
        after_fill(p, signed_qty, price)->0.qty.valid(),
        after_fill(p, signed_qty, price)->0.qty.units() == p.qty.units() + signed_qty.units(),
{
    broadcast use group_decimal;

    let (a, b) = (p.qty, signed_qty);
    law_exact_sum_value(a, b);
    if !same_direction(p, b) {
        let places = common_places(a, b);
        let (ma, mb) = (magnitude(a), magnitude(b));
        lemma_magnitude(a);
        lemma_magnitude(b);
        law_sign_of_value(a);
        law_sign_of_value(b);
        lemma_aligned_negated(a, places);
        lemma_aligned_negated(b, places);
        law_negated_value(a);
        law_negated_value(b);
        let close = closed_qty(p, b);
        lemma_times_one(ma);
        lemma_times_one(mb);
        assert(negated(negated(a)) == a);
        if ma.units() < mb.units() {
            assert(close == ma);
            assert(product(close, direction(p)) == Some(a));
            law_difference_with_itself(a);
            assert(exact_difference(mb, ma) is Some);
            law_exact_difference_value(mb, ma);
            let rest = difference(mb, ma)->0;
            law_sign_of_value(rest);
            law_negated_value(rest);
        } else {
            assert(close == mb);
            assert(product(close, direction(p)) == Some(negated(b)));
            law_difference_with_itself(mb);
            assert(exact_difference(a, negated(b)) is Some);
            law_exact_difference_value(a, negated(b));
        }
    }
}

/// What a position has cost and not yet earned back, in squared units: its quantity times its average
/// cost, less its realized gain.
pub open spec fn sunk(p: PositionInner) -> int {
    p.qty.units() * p.avg_cost.units() - p.realized_pnl.units() * one_units()
}

/// Whether the decimals of a position are decimals.
pub open spec fn valid_position(p: PositionInner) -> bool {
    p.qty.valid() && p.avg_cost.valid() && p.realized_pnl.valid()
}

/// Whether adding to a position rounds nothing.
pub open spec fn grows_exactly(p: PositionInner, signed_qty: Decimal, price: Decimal) -> bool {
    let (held, filled) = (
        product(p.avg_cost, magnitude(p.qty)),
        product(price, magnitude(signed_qty)),
    );
    let (total, qty) = (plus(held, filled), sum(p.qty, signed_qty));
    &&& product_is_exact(p.avg_cost, magnitude(p.qty))
    &&& product_is_exact(price, magnitude(signed_qty))
    &&& held is Some && filled is Some ==> sum_is_exact(held->0, filled->0)
    &&& sum_is_exact(p.qty, signed_qty)
    &&& total is Some && qty is Some ==> quotient_is_exact(total->0, magnitude(qty->0))
}

/// Whether working against a position rounds nothing.
pub open spec fn reduces_exactly(p: PositionInner, signed_qty: Decimal, price: Decimal) -> bool {
    let (close, dir) = (closed_qty(p, signed_qty), direction(p));
    let (gain, closed) = (difference(price, p.avg_cost), product(close, dir));
    let share = times(gain, Some(close));
    let earned = times(share, Some(dir));
    &&& difference_is_exact(price, p.avg_cost)
    &&& gain is Some ==> product_is_exact(gain->0, close)
    &&& share is Some ==> product_is_exact(share->0, dir)
    &&& earned is Some ==> sum_is_exact(p.realized_pnl, earned->0)
    &&& product_is_exact(close, dir)
    &&& closed is Some ==> difference_is_exact(p.qty, closed->0)
    &&& difference_is_exact(magnitude(signed_qty), close)
}

/// Whether a fill rounds nothing.
pub open spec fn fills_exactly(p: PositionInner, signed_qty: Decimal, price: Decimal) -> bool {
    if same_direction(p, signed_qty) {
        grows_exactly(p, signed_qty, price)
    } else {
        reduces_exactly(p, signed_qty, price)
    }
}

/// Whether a fill rounds no quantity.
pub open spec fn moves_exactly(p: PositionInner, signed_qty: Decimal) -> bool {
    let (close, dir) = (closed_qty(p, signed_qty), direction(p));
    if same_direction(p, signed_qty) {
        sum_is_exact(p.qty, signed_qty)
    } else {
        &&& product_is_exact(close, dir)
        &&& product(close, dir) matches Some(closed) ==> difference_is_exact(p.qty, closed)
        &&& difference_is_exact(magnitude(signed_qty), close)
    }
}

/// A fill that rounds no quantity moves the quantity held by its own.
pub proof fn law_exact_fill_moves_quantity(p: PositionInner, signed_qty: Decimal, price: Decimal)
    requires
        valid_position(p),
        signed_qty.valid(),
        price.valid(),
        signed_qty.coefficient() != 0,
        after_fill(p, signed_qty, price) is Some,
        moves_exactly(p, signed_qty),
    ensures
        valid_position(after_fill(p, signed_qty, price)->0),
        after_fill(p, signed_qty, price)->0.qty.units() == p.qty.units() + signed_qty.units(),
{
    broadcast use group_decimal;

    let (a, b) = (p.qty, signed_qty);
    let next = after_fill(p, signed_qty, price)->0;
    let one = one_units();
    lemma_magnitude(a);
    lemma_magnitude(b);
    law_sign_of_value(a);
    law_sign_of_value(b);
    lemma_one_units();
    if same_direction(p, b) {
        lemma_outcomes_valid(p.avg_cost, magnitude(a));
        lemma_outcomes_valid(price, magnitude(b));
        lemma_outcomes_valid(a, b);
        let x = product(p.avg_cost, magnitude(a))->0;
        let y = product(price, magnitude(b))->0;
        lemma_outcomes_valid(x, y);
        lemma_magnitude(next.qty);
        lemma_outcomes_valid(sum(x, y)->0, magnitude(next.qty));
    } else {
        let (close, dir) = (closed_qty(p, b), direction(p));
        lemma_outcomes_valid(price, p.avg_cost);
        let gain = difference(price, p.avg_cost)->0;
        lemma_outcomes_valid(gain, close);
        let share = product(gain, close)->0;
        lemma_outcomes_valid(share, dir);
        lemma_outcomes_valid(p.realized_pnl, product(share, dir)->0);
        lemma_outcomes_valid(close, dir);
        let closed = product(close, dir)->0;
        lemma_outcomes_valid(a, closed);
        lemma_outcomes_valid(magnitude(b), close);
        let rest = difference(magnitude(b), close)->0;
        law_sign_of_value(rest);
        law_negated_value(rest);
        let s: int = if a.units() >= 0 { 1 } else { -1 };
        assert(dir.units() == s * one) by {
            assert(pow10(MAX_PLACES - 0) == one);
        }
        lemma_signed(close.units(), closed.units(), dir.units(), s, one);
        let x = close.units();
        assert(x * s == if s == 1 { x } else { -x }) by (nonlinear_arith)
            requires
                s == 1 || s == -1,
        ;
    }
}

/// Where nothing is rounded, a fill is paid for: the quantity times the average cost, less the
/// realized gain, rises by the signed quantity of the fill times its price.
pub proof fn law_fill_is_paid_for(p: PositionInner, signed_qty: Decimal, price: Decimal)
    requires
        valid_position(p),
        signed_qty.valid(),
        price.valid(),
        signed_qty.coefficient() != 0,
        after_fill(p, signed_qty, price) is Some,
        fills_exactly(p, signed_qty, price),
    ensures
        valid_position(after_fill(p, signed_qty, price)->0),
        sunk(after_fill(p, signed_qty, price)->0) == sunk(p) + signed_qty.units() * price.units(),
        after_fill(p, signed_qty, price)->0.qty.units() == p.qty.units() + signed_qty.units(),
{
    broadcast use group_decimal;

    let (a, b) = (p.qty, signed_qty);
    let next = after_fill(p, signed_qty, price)->0;
    let one = one_units();
    lemma_magnitude(a);
    lemma_magnitude(b);
    law_sign_of_value(a);
    law_sign_of_value(b);
    law_sign_of_value(zero());
    lemma_one_units();
    if same_direction(p, b) {
        lemma_outcomes_valid(p.avg_cost, magnitude(a));
        lemma_outcomes_valid(price, magnitude(b));
        lemma_outcomes_valid(a, b);
        let x = product(p.avg_cost, magnitude(a))->0;
        let y = product(price, magnitude(b))->0;
        lemma_outcomes_valid(x, y);
        let t = sum(x, y)->0;
        lemma_magnitude(next.qty);
        lemma_outcomes_valid(t, magnitude(next.qty));
        lemma_grown_sunk(
            a.units(),
            b.units(),
            p.avg_cost.units(),
            price.units(),
            next.avg_cost.units(),
            x.units(),
            y.units(),
            one,
        );
    } else {
        let (close, dir) = (closed_qty(p, b), direction(p));
        lemma_outcomes_valid(price, p.avg_cost);
        let gain = difference(price, p.avg_cost)->0;
        lemma_outcomes_valid(gain, close);
        let share = product(gain, close)->0;
        lemma_outcomes_valid(share, dir);
        let earned = product(share, dir)->0;
        lemma_outcomes_valid(p.realized_pnl, earned);
        lemma_outcomes_valid(close, dir);
        let closed = product(close, dir)->0;
        lemma_outcomes_valid(a, closed);
        lemma_outcomes_valid(magnitude(b), close);
        let kept = difference(a, closed)->0;
        let rest = difference(magnitude(b), close)->0;
        law_sign_of_value(rest);
        law_sign_of_value(kept);
        law_negated_value(rest);
        let s: int = if a.units() >= 0 { 1 } else { -1 };
        assert(dir.units() == s * one) by {
            assert(pow10(MAX_PLACES - 0) == one);
        }
        lemma_signed(close.units(), closed.units(), dir.units(), s, one);
        lemma_signed(share.units(), earned.units(), dir.units(), s, one);
        lemma_reduced_sunk(
            a.units(),
            b.units(),
            p.avg_cost.units(),
            price.units(),
            close.units(),
            earned.units(),
            share.units(),
            s,
            one,
        );
        let (r0, e) = (p.realized_pnl.units(), earned.units());
        assert((r0 + e) * one == r0 * one + e * one) by (nonlinear_arith);
        if rest.coefficient() == 0 && kept.coefficient() == 0 {
            assert(kept.units() * p.avg_cost.units() == 0) by (nonlinear_arith)
                requires
                    kept.units() == 0,
            ;
            assert(next.qty.units() * next.avg_cost.units() == 0) by (nonlinear_arith)
                requires
                    next.qty.units() == 0,
            ;
        }
    }
}

/// One has more than no units.
pub proof fn lemma_one_units()
    ensures
        one_units() > 0,
{
    vstd::arithmetic::power::lemma_pow_positive(10, MAX_PLACES as nat);
}

/// A product with plus or minus one.
proof fn lemma_signed(x: int, r: int, d: int, s: int, one: int)
    requires
        one > 0,
        d == s * one,
        r * one == x * d,
    ensures
        r == x * s,
{
    assert(r == x * s) by (nonlinear_arith)
        requires
            one > 0,
            d == s * one,
            r * one == x * d,
    ;
}

/// Averaging a cost over two quantities of one direction keeps what was paid.
proof fn lemma_grown_sunk(
    a: int,
    b: int,
    avg: int,
    price: int,
    next: int,
    x: int,
    y: int,
    one: int,
)
    requires
        (a >= 0 && b >= 0) || (a <= 0 && b <= 0),
        x * one == avg * abs_int(a),
        y * one == price * abs_int(b),
        next * abs_int(a + b) == (x + y) * one,
    ensures
        (a + b) * next == a * avg + b * price,
{
    assert((x + y) * one == x * one + y * one) by (nonlinear_arith);
    if a >= 0 && b >= 0 {
        assert((a + b) * next == a * avg + b * price) by (nonlinear_arith)
            requires
                next * (a + b) == avg * a + price * b,
        ;
    } else {
        assert((a + b) * next == a * avg + b * price) by (nonlinear_arith)
            requires
                next * (-(a + b)) == avg * (-a) + price * (-b),
        ;
    }
}

/// What closing a quantity earns, and what that leaves.
proof fn lemma_reduced_sunk(
    a: int,
    b: int,
    avg: int,
    price: int,
    close: int,
    earned: int,
    share: int,
    s: int,
    one: int,
)
    requires
        s == 1 || s == -1,
        abs_int(a) == a * s,
        abs_int(b) == -(b * s),
        share * one == (price - avg) * close,
        earned == share * s,
        close == abs_int(a) || close == abs_int(b),
    ensures
        close == abs_int(b) ==> (a - close * s) * avg - earned * one == a * avg + b * price && close
            * s == -b,
        close == abs_int(a) ==> (a + b) * price - earned * one == a * avg + b * price && close * s
            == a,
{
    let gain = price - avg;
    assert(earned * one == gain * (close * s)) by (nonlinear_arith)
        requires
            earned == share * s,
            share * one == gain * close,
    ;
    if close == abs_int(b) {
        assert(close * s == -b) by (nonlinear_arith)
            requires
                close == -(b * s),
                s == 1 || s == -1,
        ;
        assert((a + b) * avg - (price - avg) * (-b) == a * avg + b * price) by (nonlinear_arith);
    }
    if close == abs_int(a) {
        assert(close * s == a) by (nonlinear_arith)
            requires
                close == a * s,
                s == 1 || s == -1,
        ;
        assert((a + b) * price - (price - avg) * a == a * avg + b * price) by (nonlinear_arith);
    }
}

/// A fill in the direction of the position earns nothing yet.
pub proof fn law_growing_realizes_nothing(p: PositionInner, signed_qty: Decimal, price: Decimal)
    requires
        same_direction(p, signed_qty),
        after_fill(p, signed_qty, price) is Some,
    ensures
        after_fill(p, signed_qty, price)->0.realized_pnl == p.realized_pnl,
{
}

/// A fill that takes back exactly what is held leaves nothing held, at no cost.
pub proof fn law_closing_leaves_nothing(p: PositionInner, signed_qty: Decimal, price: Decimal)
    requires
        p.qty.valid(),
        signed_qty.valid(),
        signed_qty.coefficient() != 0,
        exact_sum(p.qty, signed_qty) is Some,
        after_fill(p, signed_qty, price) is Some,
        p.qty.units() + signed_qty.units() == 0,
    ensures
        after_fill(p, signed_qty, price)->0.qty.coefficient() == 0,
        after_fill(p, signed_qty, price)->0.avg_cost == zero(),
{
    broadcast use group_decimal;

    law_fill_moves_quantity(p, signed_qty, price);
    law_sign_of_value(p.qty);
    law_sign_of_value(signed_qty);
    law_sign_of_value(after_fill(p, signed_qty, price)->0.qty);
    lemma_magnitude(p.qty);
    lemma_magnitude(signed_qty);
    law_difference_with_itself(magnitude(signed_qty));
}

/// A fill that is larger than the position against it turns the position round at the price of the
/// fill.
pub proof fn law_turning_takes_the_price(p: PositionInner, signed_qty: Decimal, price: Decimal)
    requires
        p.qty.valid(),
        signed_qty.valid(),
        exact_sum(p.qty, signed_qty) is Some,
        after_fill(p, signed_qty, price) is Some,
        p.qty.coefficient() < 0 < signed_qty.coefficient() || signed_qty.coefficient() < 0
            < p.qty.coefficient(),
        abs_int(p.qty.units()) < abs_int(signed_qty.units()),
    ensures
        after_fill(p, signed_qty, price)->0.avg_cost == price,
{
    broadcast use group_decimal;

    let (a, b) = (p.qty, signed_qty);
    let places = common_places(a, b);
    lemma_magnitude(a);
    lemma_magnitude(b);
    lemma_aligned_negated(a, places);
    lemma_aligned_negated(b, places);
    assert(exact_difference(magnitude(b), magnitude(a)) is Some);
    law_exact_difference_value(magnitude(b), magnitude(a));
    law_sign_of_value(difference(magnitude(b), magnitude(a))->0);
}

/// The symbols and what is held of them, in the order of their first fills.
pub open spec fn holdings(entries: Seq<PositionEntry>) -> Seq<(Seq<char>, PositionInner)> {
    entries.map_values(|e: PositionEntry| (e.symbol@, e.position))
}

/// Whether no symbol is listed twice.
pub open spec fn distinct_symbols(h: Seq<(Seq<char>, PositionInner)>) -> bool {
    forall|i: int, j: int| 0 <= i < j < h.len() ==> (#[trigger] h[i]).0 != (#[trigger] h[j]).0
}

/// Whether a symbol is listed.
pub open spec fn is_held(h: Seq<(Seq<char>, PositionInner)>, symbol: Seq<char>) -> bool {
    exists|i: int| 0 <= i < h.len() && (#[trigger] h[i]).0 == symbol
}

/// Where a symbol is listed.
pub open spec fn held_at(h: Seq<(Seq<char>, PositionInner)>, symbol: Seq<char>) -> int {
    choose|i: int| 0 <= i < h.len() && (#[trigger] h[i]).0 == symbol
}

/// What is held of a symbol.
pub open spec fn held(h: Seq<(Seq<char>, PositionInner)>, symbol: Seq<char>) -> Option<
    PositionInner,
> {
    if is_held(h, symbol) {
        Some(h[held_at(h, symbol)].1)
    } else {
        None
    }
}

/// The list once a symbol has a new position: in its old place, or at the end where it is new.
pub open spec fn with_held(
    h: Seq<(Seq<char>, PositionInner)>,
    symbol: Seq<char>,
    position: Option<PositionInner>,
) -> Seq<(Seq<char>, PositionInner)> {
    match position {
        None => h,
        Some(p) => if is_held(h, symbol) {
            h.update(held_at(h, symbol), (symbol, p))
        } else {
            h.push((symbol, p))
        },
    }
}

/// Setting a position lists no symbol twice, is read back under its symbol, and leaves every other
/// symbol as it was.
pub proof fn law_held_after_setting(
    h: Seq<(Seq<char>, PositionInner)>,
    symbol: Seq<char>,
    p: PositionInner,
    other: Seq<char>,
)
    requires
        distinct_symbols(h),
    ensures
        distinct_symbols(with_held(h, symbol, Some(p))),
        held(with_held(h, symbol, Some(p)), symbol) == Some(p),
        other != symbol ==> held(with_held(h, symbol, Some(p)), other) == held(h, other),
{
    let w = with_held(h, symbol, Some(p));
    let at = if is_held(h, symbol) {
        held_at(h, symbol)
    } else {
        h.len() as int
    };
    assert(w[at] == (symbol, p));
    assert forall|i: int| 0 <= i < w.len() && i != at implies #[trigger] w[i] == h[i] by {}
    assert forall|i: int, j: int| 0 <= i < j < w.len() implies (#[trigger] w[i]).0 != (
    #[trigger] w[j]).0 by {
        if is_held(h, symbol) {
            assert(h[i].0 != h[j].0);
        } else if j < at {
            assert(h[i].0 != h[j].0);
        } else {
            assert(h[i].0 != symbol);
        }
    }
    assert(held_at(w, symbol) == at);
    if other != symbol {
        if is_held(h, other) {
            let k = held_at(h, other);
            assert(w[k] == h[k]);
            assert(held_at(w, other) == k);
        }
        if is_held(w, other) {
            let k = held_at(w, other);
            assert(h[k].0 == other);
        }
    }
}

/// Looks a symbol up.
pub fn find_position(entries: &Vec<PositionEntry>, symbol: &String) -> (r: Option<usize>)
    requires
        distinct_symbols(holdings(entries@)),
    ensures
        r is Some <==> is_held(holdings(entries@), symbol@),
        r matches Some(i) ==> i < entries.len() && i == held_at(holdings(entries@), symbol@)
            && entries[i as int].symbol@ == symbol@,
{
    let ghost h = holdings(entries@);
    for i in 0..entries.len()
        invariant
            h == holdings(entries@),
            distinct_symbols(h),
            forall|j: int| 0 <= j < i ==> (#[trigger] h[j]).0 != symbol@,
    {
        assert(h[i as int].0 == entries[i as int].symbol@);
        if entries[i].symbol == *symbol {
            assert(held_at(h, symbol@) == i);
            return Some(i);
        }
    }
    None
}

/// What is held of a symbol.
pub fn position_of(entries: &Vec<PositionEntry>, symbol: &String) -> (r: Option<PositionInner>)
    requires
        distinct_symbols(holdings(entries@)),
    ensures
        r == held(holdings(entries@), symbol@),
{
    match find_position(entries, symbol) {
        Some(i) => Some(entries[i].position),
        None => None,
    }
}

/// Sets what is held of a symbol.
pub fn set_position(
    entries: &mut Vec<PositionEntry>,
    symbol: &String,
    position: Option<PositionInner>,
)
    requires
        distinct_symbols(holdings(old(entries)@)),
    ensures
        distinct_symbols(holdings(final(entries)@)),
        holdings(final(entries)@) == with_held(holdings(old(entries)@), symbol@, position),
{
    if let Some(p) = position {
        let ghost h = holdings(entries@);
        proof {
            law_held_after_setting(h, symbol@, p, symbol@);
        }
        match find_position(entries, symbol) {
            Some(i) => {
                entries.set(i, PositionEntry { symbol: symbol.clone(), position: p });
                assert(holdings(entries@) =~= h.update(i as int, (symbol@, p)));
            },
            None => {
                entries.push(PositionEntry { symbol: symbol.clone(), position: p });
                assert(holdings(entries@) =~= h.push((symbol@, p)));
            },
        }
    }
}

} // verus!
