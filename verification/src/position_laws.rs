//! What a fill does to a position, amount by amount and as far as rounding goes.

use crate::decimal::{
    abs_int, difference, group_decimal, in_reach, is_rounded, law_difference_is_rounded,
    law_negated_value, law_product_is_rounded, law_quotient_is_rounded, law_sign_of_value,
    law_sum_is_rounded, magnitude, one_units, product, quotient, sum, whole, zero, Decimal,
};
use crate::position::{
    after_fill, closed_qty, direction, flat, held_after, valid_position, PositionInner,
};
use crate::rounding::{
    law_magnitude_value, lemma_opposite_in_reach, lemma_rounded_opposite, lemma_rounded_sign,
    lemma_times_sign, lemma_zero_in_reach,
};
use vstd::prelude::*;

verus! {

/// The average cost of a position after a fill has been added to it, with the cost of what was held,
/// the cost of the fill and their sum.
pub open spec fn is_average(
    p: PositionInner,
    q: PositionInner,
    by: int,
    price: Decimal,
    kept: Decimal,
    paid: Decimal,
    total: Decimal,
) -> bool {
    &&& is_rounded(kept, p.avg_cost.units() * abs_int(p.qty.units()), one_units())
    &&& is_rounded(paid, price.units() * abs_int(by), one_units())
    &&& is_rounded(total, kept.units() + paid.units(), 1)
    &&& is_rounded(q.avg_cost, total.units() * one_units(), abs_int(q.qty.units()))
}

/// What a fill against a position closes: all of it, or as much as the fill has.
pub open spec fn closing(held: int, by: int) -> int {
    if abs_int(by) < abs_int(held) {
        abs_int(by)
    } else {
        abs_int(held)
    }
}

/// The realized gain after a fill has closed some of a position: what is closed earns the difference
/// between the price and the average cost, or loses it where the position was owed.
pub open spec fn is_gain(
    p: PositionInner,
    q: PositionInner,
    by: int,
    price: Decimal,
    gain: Decimal,
    share: Decimal,
) -> bool {
    let held = p.qty.units();
    &&& is_rounded(gain, price.units() - p.avg_cost.units(), 1)
    &&& is_rounded(share, gain.units() * closing(held, by), one_units())
    &&& is_rounded(
        q.realized_pnl,
        if held > 0 {
            p.realized_pnl.units() + share.units()
        } else {
            p.realized_pnl.units() - share.units()
        },
        1,
    )
}

/// Whether `q` is what a fill of `by` units, bought where that is above zero and sold where it is
/// below, makes of `p`.
///
/// The quantity moves by that of the fill. A fill in the direction of the position earns nothing, and
/// the cost is averaged over the old quantity and the new. A fill against it earns on what it closes.
/// While some of the position is left its average cost stays; a position that is closed has none; and
/// one that is turned round has the price of the fill.
pub open spec fn is_filled(p: PositionInner, q: PositionInner, by: int, price: Decimal) -> bool {
    let held = p.qty.units();
    &&& valid_position(q)
    &&& is_rounded(q.qty, held + by, 1)
    &&& if held == 0 || (held > 0) == (by > 0) {
        &&& q.realized_pnl == p.realized_pnl
        &&& exists|kept: Decimal, paid: Decimal, total: Decimal|
            is_average(p, q, by, price, kept, paid, total)
    } else {
        &&& exists|gain: Decimal, share: Decimal| is_gain(p, q, by, price, gain, share)
        &&& abs_int(by) < abs_int(held) ==> q.avg_cost == p.avg_cost
        &&& abs_int(by) == abs_int(held) ==> q.avg_cost.units() == 0
        &&& abs_int(by) > abs_int(held) ==> q.avg_cost == price
    }
}

/// A fill makes of a position what its quantity and its price say, whatever the position was.
pub proof fn law_fill_changes_a_position(p: PositionInner, by: Decimal, price: Decimal)
    requires
        valid_position(p),
        by.valid(),
        price.valid(),
        by.units() != 0,
        after_fill(p, by, price) is Some,
    ensures
        is_filled(p, after_fill(p, by, price)->0, by.units(), price),
{
    let q = after_fill(p, by, price)->0;
    law_sign_of_value(p.qty);
    law_sign_of_value(by);
    law_magnitude_value(p.qty);
    law_magnitude_value(by);
    if p.qty.units() == 0 || (p.qty.units() > 0) == (by.units() > 0) {
        let (kept, paid) = (
            product(p.avg_cost, magnitude(p.qty))->0,
            product(price, magnitude(by))->0,
        );
        law_product_is_rounded(p.avg_cost, magnitude(p.qty));
        law_product_is_rounded(price, magnitude(by));
        law_sum_is_rounded(kept, paid);
        law_sum_is_rounded(p.qty, by);
        let total = sum(kept, paid)->0;
        lemma_rounded_sign(q.qty, p.qty.units() + by.units());
        law_magnitude_value(q.qty);
        law_sign_of_value(magnitude(q.qty));
        law_quotient_is_rounded(total, magnitude(q.qty));
        assert(is_average(p, q, by.units(), price, kept, paid, total));
    } else {
        lemma_reduced(p, by, price);
    }
}

/// One for a quantity above zero, minus one for one below.
spec fn sign(held: int) -> int {
    if held > 0 {
        1
    } else {
        -1
    }
}

/// The steps of closing some of a position.
proof fn lemma_reduced(p: PositionInner, by: Decimal, price: Decimal)
    requires
        valid_position(p),
        by.valid(),
        price.valid(),
        by.units() != 0,
        p.qty.units() != 0,
        (p.qty.units() > 0) != (by.units() > 0),
        after_fill(p, by, price) is Some,
    ensures
        is_filled(p, after_fill(p, by, price)->0, by.units(), price),
{
    broadcast use group_decimal;

    let q = after_fill(p, by, price)->0;
    let (held, b) = (p.qty.units(), by.units());
    law_sign_of_value(p.qty);
    law_sign_of_value(by);
    law_magnitude_value(p.qty);
    law_magnitude_value(by);
    let (close, dir) = (closed_qty(p, by), direction(p));
    assert(close.units() == closing(held, b));
    let s = sign(held);
    assert(dir == whole(s));
    let gain = difference(price, p.avg_cost)->0;
    law_difference_is_rounded(price, p.avg_cost);
    let share = product(gain, close)->0;
    law_product_is_rounded(gain, close);
    lemma_times_sign(share, s);
    law_sum_is_rounded(p.realized_pnl, product(share, dir)->0);
    assert(is_gain(p, q, b, price, gain, share));
    lemma_times_sign(close, s);
    let closed = product(close, dir)->0;
    law_difference_is_rounded(p.qty, closed);
    law_difference_is_rounded(magnitude(by), close);
    let kept = difference(p.qty, closed)->0;
    let rest = difference(magnitude(by), close)->0;
    lemma_rounded_sign(rest, abs_int(b) - close.units());
    lemma_rounded_sign(kept, held - closed.units());
    lemma_zero_in_reach();
    if abs_int(b) > abs_int(held) {
        law_negated_value(rest);
        lemma_rounded_opposite(rest, abs_int(b) - close.units(), 1);
    }
}

/// What is held of a symbol after a fill: as it was where nothing is filled, and otherwise what the
/// fill makes of it, or of nothing held where the symbol is new.
pub proof fn law_fill_changes_what_is_held(
    held: Option<PositionInner>,
    by: Decimal,
    price: Decimal,
)
    requires
        held matches Some(p) ==> valid_position(p),
        by.valid(),
        price.valid(),
        held_after(held, by, price) is Some,
    ensures
        is_held_filled(held, held_after(held, by, price)->0, by.units(), price),
{
    broadcast use group_decimal;

    law_sign_of_value(by);
    lemma_zero_in_reach();
    if by.units() != 0 {
        let from = match held {
            Some(p) => p,
            None => flat(),
        };
        law_fill_changes_a_position(from, by, price);
    }
}

/// Nothing held, at no cost and with nothing earned.
pub open spec fn nothing_held() -> PositionInner {
    PositionInner { qty: zero(), avg_cost: zero(), realized_pnl: zero() }
}

/// Whether `after` is what a fill of `by` units makes of what is held.
pub open spec fn is_held_filled(
    held: Option<PositionInner>,
    after: Option<PositionInner>,
    by: int,
    price: Decimal,
) -> bool {
    if by == 0 {
        after == held
    } else {
        &&& after is Some
        &&& is_filled(
            match held {
                Some(p) => p,
                None => nothing_held(),
            },
            after->0,
            by,
            price,
        )
    }
}

/// Whether averaging the cost of a position leaves what decimals can hold.
pub open spec fn average_overflows(p: PositionInner, by: int, price: Decimal) -> bool {
    let held = p.qty.units();
    let one = one_units();
    ||| !in_reach(held + by, 1)
    ||| !in_reach(p.avg_cost.units() * abs_int(held), one)
    ||| !in_reach(price.units() * abs_int(by), one)
    ||| exists|kept: Decimal, paid: Decimal|
        {
            &&& #[trigger] is_rounded(kept, p.avg_cost.units() * abs_int(held), one)
            &&& #[trigger] is_rounded(paid, price.units() * abs_int(by), one)
            &&& !in_reach(kept.units() + paid.units(), 1)
        }
    ||| exists|total: Decimal, qty: Decimal|
        {
            &&& #[trigger] is_rounded(qty, held + by, 1)
            &&& #[trigger] is_sum_of_costs(p, by, price, total)
            &&& !in_reach(total.units() * one, abs_int(qty.units()))
        }
}

/// Whether `total` is what the cost of a position and the cost of a fill come to.
pub open spec fn is_sum_of_costs(p: PositionInner, by: int, price: Decimal, total: Decimal) -> bool {
    exists|kept: Decimal, paid: Decimal|
        {
            &&& #[trigger] is_rounded(kept, p.avg_cost.units() * abs_int(p.qty.units()), one_units())
            &&& #[trigger] is_rounded(paid, price.units() * abs_int(by), one_units())
            &&& is_rounded(total, kept.units() + paid.units(), 1)
        }
}

/// Whether what closing some of a position earns, or what is left of it, leaves what decimals can
/// hold.
pub open spec fn gain_overflows(p: PositionInner, by: int, price: Decimal) -> bool {
    let held = p.qty.units();
    ||| !in_reach(held + by, 1)
    ||| !in_reach(price.units() - p.avg_cost.units(), 1)
    ||| exists|gain: Decimal|
        {
            &&& #[trigger] is_rounded(gain, price.units() - p.avg_cost.units(), 1)
            &&& !in_reach(gain.units() * closing(held, by), one_units())
        }
    ||| exists|gain: Decimal, share: Decimal|
        {
            &&& #[trigger] is_rounded(gain, price.units() - p.avg_cost.units(), 1)
            &&& #[trigger] is_rounded(share, gain.units() * closing(held, by), one_units())
            &&& !in_reach(
                if held > 0 {
                    p.realized_pnl.units() + share.units()
                } else {
                    p.realized_pnl.units() - share.units()
                },
                1,
            )
        }
}

/// A fill fails only where some amount that it needs leaves what decimals can hold.
pub proof fn law_fill_fails_only_by_overflow(p: PositionInner, by: Decimal, price: Decimal)
    requires
        valid_position(p),
        by.valid(),
        price.valid(),
        by.units() != 0,
        after_fill(p, by, price) is None,
    ensures
        p.qty.units() == 0 || (p.qty.units() > 0) == (by.units() > 0) ==> average_overflows(
            p,
            by.units(),
            price,
        ),
        p.qty.units() != 0 && (p.qty.units() > 0) != (by.units() > 0) ==> gain_overflows(
            p,
            by.units(),
            price,
        ),
{
    law_sign_of_value(p.qty);
    law_sign_of_value(by);
    law_magnitude_value(p.qty);
    law_magnitude_value(by);
    if p.qty.units() == 0 || (p.qty.units() > 0) == (by.units() > 0) {
        let (kept, paid) = (
            product(p.avg_cost, magnitude(p.qty)),
            product(price, magnitude(by)),
        );
        law_product_is_rounded(p.avg_cost, magnitude(p.qty));
        law_product_is_rounded(price, magnitude(by));
        law_sum_is_rounded(p.qty, by);
        if kept is Some && paid is Some && sum(p.qty, by) is Some {
            let (x, y) = (kept->0, paid->0);
            law_sum_is_rounded(x, y);
            let qty = sum(p.qty, by)->0;
            lemma_rounded_sign(qty, p.qty.units() + by.units());
            if sum(x, y) is Some {
                let total = sum(x, y)->0;
                law_magnitude_value(qty);
                law_sign_of_value(magnitude(qty));
                law_quotient_is_rounded(total, magnitude(qty));
                assert(is_rounded(x, p.avg_cost.units() * abs_int(p.qty.units()), one_units()));
                assert(is_rounded(y, price.units() * abs_int(by.units()), one_units()));
                assert(is_sum_of_costs(p, by.units(), price, total));
                assert(quotient(total, magnitude(qty)) is None);
            }
        }
    } else {
        lemma_reducing_fails(p, by, price);
    }
}

proof fn lemma_reducing_fails(p: PositionInner, by: Decimal, price: Decimal)
    requires
        valid_position(p),
        by.valid(),
        price.valid(),
        by.units() != 0,
        p.qty.units() != 0,
        (p.qty.units() > 0) != (by.units() > 0),
        after_fill(p, by, price) is None,
    ensures
        gain_overflows(p, by.units(), price),
{
    broadcast use group_decimal;

    let (held, b) = (p.qty.units(), by.units());
    law_sign_of_value(p.qty);
    law_sign_of_value(by);
    law_magnitude_value(p.qty);
    law_magnitude_value(by);
    let (close, dir) = (closed_qty(p, by), direction(p));
    assert(close.units() == closing(held, b));
    let s = sign(held);
    assert(dir == whole(s));
    lemma_zero_in_reach();
    lemma_times_sign(close, s);
    let closed = product(close, dir)->0;
    law_difference_is_rounded(p.qty, closed);
    law_difference_is_rounded(magnitude(by), close);
    if in_reach(held + b, 1) {
        lemma_opposite_in_reach(held + b, 1);
        assert(difference(p.qty, closed) is Some);
        assert(difference(magnitude(by), close) is Some);
        law_difference_is_rounded(price, p.avg_cost);
        if difference(price, p.avg_cost) is Some {
            let gain = difference(price, p.avg_cost)->0;
            law_product_is_rounded(gain, close);
            if product(gain, close) is Some {
                let share = product(gain, close)->0;
                lemma_times_sign(share, s);
                law_sum_is_rounded(p.realized_pnl, product(share, dir)->0);
            }
        }
    }
}

} // verus!
