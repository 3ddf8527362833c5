//! What the prices of a book are, in terms of its levels and as far as rounding goes.

use crate::book::{Level, OrderBook};
use crate::decimal::{
    abs_int, difference, dividend, group_decimal, has_value, in_reach, is_rounded, is_value,
    law_difference_is_rounded, law_product_is_rounded, law_quotient_is_rounded, law_sign_of_value,
    law_sum_is_rounded, one_units, pow10, product, product_is_exact, quotient, quotient_is_exact,
    short_text, smaller, sum, two_place_text, whole, zero, Decimal, MAX_COEFFICIENT, MAX_PLACES,
};
use crate::order_laws::tells;
use crate::position::lemma_one_units;
use crate::pricing::{
    gap, gap_bps, mid, paid_through, prices_fit, prices_show, valid_levels, vwap, PricingSnapshot,
};
use crate::rounding::{law_smaller_of_two, lemma_rounded_sign, lemma_zero_in_reach};
use vstd::prelude::*;

verus! {

/// The highest bid price of a book that has bids.
pub open spec fn highest_bid(book: OrderBook) -> Decimal {
    book.bids().last().0
}

/// The lowest ask price of a book that has asks.
pub open spec fn lowest_ask(book: OrderBook) -> Decimal {
    book.asks().first().0
}

/// Whether a book has both sides, and the decimals of its best prices are decimals.
pub open spec fn has_both_prices(book: OrderBook) -> bool {
    &&& book.bids().len() > 0
    &&& book.asks().len() > 0
    &&& highest_bid(book).valid()
    &&& lowest_ask(book).valid()
}

/// An integer has as many times the units of one.
proof fn lemma_whole(n: int)
    requires
        -1000000 <= n <= 1000000,
    ensures
        whole(n).valid(),
        whole(n).units() == n * one_units(),
        whole(n).coefficient() == n,
{
    broadcast use group_decimal;

    assert(pow10(MAX_PLACES - 0) == one_units());
}

/// The mean price of a book with both sides is half of the sum of the highest bid and the lowest ask.
/// It is there unless that leaves what decimals can hold. A book that lacks a side has none.
pub proof fn law_mean_of_the_best_prices(book: OrderBook)
    ensures
        has_both_prices(book) ==> match mid(book) {
            Some(Some(m)) => exists|both: Decimal|
                {
                    &&& #[trigger] is_rounded(
                        both,
                        highest_bid(book).units() + lowest_ask(book).units(),
                        1,
                    )
                    &&& is_rounded(m, both.units() * one_units(), 2 * one_units())
                },
            Some(None) => false,
            None => !in_reach(highest_bid(book).units() + lowest_ask(book).units(), 1)
                || exists|both: Decimal|
                {
                    &&& #[trigger] is_rounded(
                        both,
                        highest_bid(book).units() + lowest_ask(book).units(),
                        1,
                    )
                    &&& !in_reach(both.units() * one_units(), 2 * one_units())
                },
        },
        book.bids().len() == 0 || book.asks().len() == 0 ==> mid(book) == Some(None::<Decimal>),
{
    if has_both_prices(book) {
        let (bid, ask) = (highest_bid(book), lowest_ask(book));
        law_sum_is_rounded(bid, ask);
        lemma_whole(2);
        lemma_one_units();
        if sum(bid, ask) is Some {
            let both = sum(bid, ask)->0;
            law_quotient_is_rounded(both, whole(2));
            assert(dividend(both, whole(2)) == both.units() * one_units());
            assert(is_rounded(both, bid.units() + ask.units(), 1));
        }
    }
}

/// The spread of a book with both sides is the lowest ask less the highest bid. It is there unless
/// that leaves what decimals can hold. A book that lacks a side has none.
pub proof fn law_spread_of_the_best_prices(book: OrderBook)
    ensures
        has_both_prices(book) ==> match gap(book) {
            Some(Some(s)) => is_rounded(s, lowest_ask(book).units() - highest_bid(book).units(), 1),
            Some(None) => false,
            None => !in_reach(lowest_ask(book).units() - highest_bid(book).units(), 1),
        },
        book.bids().len() == 0 || book.asks().len() == 0 ==> gap(book) == Some(None::<Decimal>),
{
    if has_both_prices(book) {
        law_difference_is_rounded(lowest_ask(book), highest_bid(book));
    }
}

/// Whether `d` is ten thousand times the share that `s` is of `m`, each as rounding leaves it.
pub open spec fn is_basis_points(s: Decimal, m: Decimal, share: Decimal, d: Decimal) -> bool {
    &&& is_rounded(share, dividend(s, m), abs_int(m.units()))
    &&& is_rounded(d, 10000 * share.units(), 1)
}

/// The spread of a book in basis points is ten thousand times the share that the spread is of the
/// mean, whatever the mean is, unless it is zero: then there are none. They are there unless that
/// leaves what decimals can hold.
pub proof fn law_basis_points(book: OrderBook)
    requires
        has_both_prices(book),
    ensures
        (mid(book) matches Some(Some(m)) && gap(book) matches Some(Some(s))) ==> {
            let (m, s) = ((mid(book)->0)->0, (gap(book)->0)->0);
            match gap_bps(book) {
                Some(Some(d)) => m.units() != 0 && exists|share: Decimal|
                    is_basis_points(s, m, share, d),
                Some(None) => m.units() == 0,
                None => m.units() != 0 && (!in_reach(dividend(s, m), abs_int(m.units()))
                    || exists|share: Decimal|
                    {
                        &&& #[trigger] is_rounded(share, dividend(s, m), abs_int(m.units()))
                        &&& !in_reach(10000 * share.units(), 1)
                    }),
            }
        },
        mid(book) is None || gap(book) is None ==> gap_bps(book) is None,
{
    law_mean_of_the_best_prices(book);
    law_spread_of_the_best_prices(book);
    if mid(book) is Some && gap(book) is Some {
        let (m, s) = ((mid(book)->0)->0, (gap(book)->0)->0);
        law_sign_of_value(m);
        if m.units() != 0 {
            law_quotient_is_rounded(s, m);
            if quotient(s, m) is Some {
                let share = quotient(s, m)->0;
                lemma_ten_thousand(share);
                if product(share, whole(10000)) is Some {
                    assert(is_basis_points(s, m, share, product(share, whole(10000))->0));
                } else {
                    assert(is_rounded(share, dividend(s, m), abs_int(m.units())));
                }
            }
        }
    }
}

/// What a product with ten thousand comes to.
proof fn lemma_ten_thousand(share: Decimal)
    requires
        share.valid(),
    ensures
        product(share, whole(10000)) matches Some(d) ==> is_rounded(d, 10000 * share.units(), 1),
        in_reach(10000 * share.units(), 1) ==> product(share, whole(10000)) is Some,
{
    let one = one_units();
    lemma_whole(10000);
    lemma_one_units();
    law_product_is_rounded(share, whole(10000));
    let x = share.units();
    assert(x * (10000 * one) == (10000 * x) * one) by (nonlinear_arith);
    if let Some(d) = product(share, whole(10000)) {
        lemma_rounded_scaled(d, 10000 * x, one);
    }
    if in_reach(10000 * x, 1) {
        lemma_reach_scaled(10000 * x, one);
    }
}

/// Rounding looks at the value alone: a fraction can be reduced.
proof fn lemma_rounded_scaled(d: Decimal, num: int, one: int)
    requires
        one > 0,
        is_rounded(d, num * one, one),
    ensures
        is_rounded(d, num, 1),
{
    let x = d.units();
    let t = pow10(MAX_PLACES - d.places());
    let off = abs_int(x - num);
    let m = MAX_COEFFICIENT as int;
    assert(abs_int(x * one - num * one) == off * one) by (nonlinear_arith)
        requires
            one > 0,
            off == abs_int(x - num),
    ;
    assert(abs_int(num * one) == abs_int(num) * one) by (nonlinear_arith)
        requires
            one > 0,
    ;
    assert(2 * off <= t) by (nonlinear_arith)
        requires
            2 * (off * one) <= one * t,
            one > 0,
    ;
    assert(2 * off <= 1 || m * (2 * off) <= 10 * abs_int(num)) by (nonlinear_arith)
        requires
            2 * (off * one) <= one || m * (2 * (off * one)) <= 10 * (abs_int(num) * one),
            one > 0,
    ;
    if has_value(num, 1) {
        let e = choose|e: Decimal| is_value(e, num, 1);
        assert(is_value(e, num * one, one));
        assert(x == num) by (nonlinear_arith)
            requires
                x * one == num * one,
                one > 0,
        ;
    }
}

proof fn lemma_reach_scaled(num: int, one: int)
    requires
        one > 0,
        in_reach(num, 1),
    ensures
        in_reach(num * one, one),
{
    let m = MAX_COEFFICIENT - 1;
    let u = one_units();
    assert(abs_int(num * one) == abs_int(num) * one) by (nonlinear_arith)
        requires
            one > 0,
    ;
    if has_value(num, 1) {
        let e = choose|e: Decimal| is_value(e, num, 1);
        assert(is_value(e, num * one, one));
    } else {
        assert(abs_int(num) * one <= m * u * one) by (nonlinear_arith)
            requires
                abs_int(num) <= m * u * 1,
                one > 0,
        ;
    }
}

/// Where neither the share nor its ten thousandfold is rounded, the basis points times the mean are
/// ten thousand times the spread.
pub proof fn law_basis_points_times_mean(book: OrderBook)
    requires
        has_both_prices(book),
        mid(book) matches Some(Some(m)) && m.units() != 0,
        gap(book) matches Some(Some(_)),
        quotient_is_exact((gap(book)->0)->0, (mid(book)->0)->0),
        quotient((gap(book)->0)->0, (mid(book)->0)->0) matches Some(share) ==> product_is_exact(
            share,
            whole(10000),
        ),
        gap_bps(book) is Some,
    ensures
        gap_bps(book) matches Some(Some(d)) && d.units() * ((mid(book)->0)->0).units() == 10000 * ((
        gap(book)->0)->0).units() * one_units(),
{
    let (m, s) = ((mid(book)->0)->0, (gap(book)->0)->0);
    law_mean_of_the_best_prices(book);
    law_sign_of_value(m);
    let share = quotient(s, m)->0;
    let d = (gap_bps(book)->0)->0;
    let one = one_units();
    lemma_whole(10000);
    lemma_one_units();
    let (x, y, z, w) = (d.units(), share.units(), m.units(), s.units());
    assert(x * one == y * (10000 * one));
    assert(x == 10000 * y) by (nonlinear_arith)
        requires
            x * one == y * (10000 * one),
            one > 0,
    ;
    assert(x * z == 10000 * w * one) by (nonlinear_arith)
        requires
            x == 10000 * y,
            y * z == w * one,
    ;
}

/// How much of a level a want takes.
pub open spec fn part_of(want: int, level: Level) -> int {
    if want < level.1.units() {
        want
    } else {
        level.1.units()
    }
}

/// Whether a want takes what it can of a level: what is wanted falls by that, and the cost grows by
/// price times quantity.
pub open spec fn is_taken(
    level: Level,
    from: (Decimal, Decimal),
    to: (Decimal, Decimal),
    paid: Decimal,
) -> bool {
    let part = part_of(from.0.units(), level);
    &&& from.0.units() != 0
    &&& is_rounded(paid, level.0.units() * part, one_units())
    &&& is_rounded(to.1, from.1.units() + paid.units(), 1)
    &&& is_rounded(to.0, from.0.units() - part, 1)
}

/// Whether a want takes what it can of a level, for some payment.
pub open spec fn takes_level(
    level: Level,
    from: (Decimal, Decimal),
    to: (Decimal, Decimal),
) -> bool {
    exists|paid: Decimal| is_taken(level, from, to, paid)
}

/// Whether a want takes the first levels of a list one after the other, and is left with the given
/// wants and costs.
pub open spec fn takes_levels(levels: Seq<Level>, states: Seq<(Decimal, Decimal)>) -> bool {
    &&& 0 < states.len() <= levels.len() + 1
    &&& forall|i: int|
        0 <= i < states.len() - 1 ==> takes_level(#[trigger] levels[i], states[i], states[i + 1])
}

/// Whether a want that goes through levels ends with the given want and cost: it leaves off only where
/// nothing is wanted any more or the levels end.
pub open spec fn is_purchase(
    levels: Seq<Level>,
    start: (Decimal, Decimal),
    end: (Decimal, Decimal),
) -> bool {
    exists|states: Seq<(Decimal, Decimal)>|
        {
            &&& #[trigger] takes_levels(levels, states)
            &&& states.first() == start
            &&& states.last() == end
            &&& states.len() == levels.len() + 1 || end.0.units() == 0
        }
}

/// Whether a want that goes through levels comes, after some of them, to one at which it would leave
/// what decimals can hold.
pub open spec fn purchase_overflows(levels: Seq<Level>, start: (Decimal, Decimal)) -> bool {
    exists|states: Seq<(Decimal, Decimal)>|
        {
            &&& #[trigger] takes_levels(levels, states)
            &&& states.first() == start
            &&& states.len() <= levels.len()
            &&& taking_overflows(levels[states.len() - 1], states.last())
        }
}

/// Whether taking what is wanted of a level leaves what decimals can hold.
pub open spec fn taking_overflows(level: Level, from: (Decimal, Decimal)) -> bool {
    let part = part_of(from.0.units(), level);
    ||| !in_reach(from.0.units() - part, 1)
    ||| !in_reach(level.0.units() * part, one_units())
    ||| exists|paid: Decimal|
        {
            &&& #[trigger] is_rounded(paid, level.0.units() * part, one_units())
            &&& !in_reach(from.1.units() + paid.units(), 1)
        }
}

/// A level that is taken and the levels behind it.
proof fn lemma_more_levels(
    levels: Seq<Level>,
    from: (Decimal, Decimal),
    paid: Decimal,
    states: Seq<(Decimal, Decimal)>,
)
    requires
        levels.len() > 0,
        takes_levels(levels.drop_first(), states),
        is_taken(levels.first(), from, states.first(), paid),
    ensures
        takes_levels(levels, seq![from] + states),
        (seq![from] + states).first() == from,
        (seq![from] + states).last() == states.last(),
{
    let path = seq![from] + states;
    assert(levels[0] == levels.first());
    assert forall|i: int| 0 <= i < path.len() - 1 implies takes_level(
        #[trigger] levels[i],
        path[i],
        path[i + 1],
    ) by {
        if i == 0 {
            assert(path[1] == states[0]);
            assert(is_taken(levels[0], path[0], path[1], paid));
        } else {
            assert(levels.drop_first()[i - 1] == levels[i]);
            assert(path[i] == states[i - 1] && path[i + 1] == states[i]);
        }
    }
}

/// Going through levels takes them one by one, or fails by overflow.
proof fn lemma_purchase(levels: Seq<Level>, remaining: Decimal, cost: Decimal)
    requires
        valid_levels(levels),
        remaining.valid(),
        cost.valid(),
        remaining.units() != 0,
    ensures
        match paid_through(levels, remaining, cost) {
            Some(end) => is_purchase(levels, (remaining, cost), end) && end.0.valid()
                && end.1.valid(),
            None => purchase_overflows(levels, (remaining, cost)),
        },
    decreases levels.len(),
{
    let from = (remaining, cost);
    let here = seq![from];
    assert(here.first() == from && here.last() == from);
    assert(takes_levels(levels, here));
    if levels.len() > 0 {
        let l = levels.first();
        let rest = levels.drop_first();
        assert(l == levels[0]);
        assert forall|i: int| 0 <= i < rest.len() implies (#[trigger] rest[i]).0.valid()
            && rest[i].1.valid() by {
            assert(rest[i] == levels[i + 1]);
        }
        let fill = smaller(remaining, l.1);
        law_smaller_of_two(remaining, l.1);
        law_product_is_rounded(l.0, fill);
        law_difference_is_rounded(remaining, fill);
        assert(fill.units() == part_of(remaining.units(), l));
        if product(l.0, fill) is Some {
            let paid = product(l.0, fill)->0;
            law_sum_is_rounded(cost, paid);
            if sum(cost, paid) is Some && difference(remaining, fill) is Some {
                let (c, r) = (sum(cost, paid)->0, difference(remaining, fill)->0);
                assert(is_taken(l, from, (r, c), paid));
                law_sign_of_value(r);
                let after = seq![(r, c)];
                assert(after.first() == (r, c) && after.last() == (r, c));
                if r.coefficient() == 0 {
                    assert(takes_levels(rest, after));
                    lemma_more_levels(levels, from, paid, after);
                } else {
                    lemma_purchase(rest, r, c);
                    match paid_through(rest, r, c) {
                        Some(end) => {
                            let states = choose|states: Seq<(Decimal, Decimal)>|
                                {
                                    &&& #[trigger] takes_levels(rest, states)
                                    &&& states.first() == (r, c)
                                    &&& states.last() == end
                                    &&& states.len() == rest.len() + 1 || end.0.units() == 0
                                };
                            lemma_more_levels(levels, from, paid, states);
                        },
                        None => {
                            let states = choose|states: Seq<(Decimal, Decimal)>|
                                {
                                    &&& #[trigger] takes_levels(rest, states)
                                    &&& states.first() == (r, c)
                                    &&& states.len() <= rest.len()
                                    &&& taking_overflows(rest[states.len() - 1], states.last())
                                };
                            lemma_more_levels(levels, from, paid, states);
                            let all = seq![from] + states;
                            assert(levels[all.len() - 1] == rest[states.len() - 1]);
                        },
                    }
                }
            }
        }
    }
}

/// Whether `filled` is what a want has got and `average` what that has cost on average.
pub open spec fn is_average_price(
    target: Decimal,
    end: (Decimal, Decimal),
    filled: Decimal,
    average: Decimal,
) -> bool {
    &&& is_rounded(filled, target.units() - end.0.units(), 1)
    &&& filled.units() != 0
    &&& is_rounded(average, dividend(end.1, filled), abs_int(filled.units()))
}

/// The average price of a want over levels. The want takes the levels one by one until it has what it
/// wants or they end. The average is what that costs divided by what it got. There is none where
/// nothing is wanted or nothing is got, and it fails only where some amount leaves what decimals can
/// hold.
pub proof fn law_average_price_over_levels(levels: Seq<Level>, target: Decimal)
    requires
        valid_levels(levels),
        target.valid(),
    ensures
        levels.len() == 0 || target.units() == 0 ==> vwap(levels, target) == Some(None::<Decimal>),
        levels.len() > 0 && target.units() != 0 ==> match vwap(levels, target) {
            Some(Some(average)) => exists|end: (Decimal, Decimal), filled: Decimal|
                #[trigger] is_purchase(levels, (target, zero()), end)
                    && #[trigger] is_average_price(target, end, filled, average),
            Some(None) => exists|end: (Decimal, Decimal)| #[trigger]
                is_purchase(levels, (target, zero()), end) && end.0.units() == target.units(),
            None => purchase_overflows(levels, (target, zero())) || exists|end: (Decimal, Decimal)|
                #[trigger] is_purchase(levels, (target, zero()), end) && (!in_reach(
                    target.units() - end.0.units(),
                    1,
                ) || exists|filled: Decimal|
                    {
                        &&& #[trigger] is_rounded(filled, target.units() - end.0.units(), 1)
                        &&& filled.units() != 0
                        &&& !in_reach(dividend(end.1, filled), abs_int(filled.units()))
                    }),
        },
{
    law_sign_of_value(target);
    lemma_zero_in_reach();
    if levels.len() > 0 && target.units() != 0 {
        lemma_purchase(levels, target, zero());
        if let Some(end) = paid_through(levels, target, zero()) {
            law_difference_is_rounded(target, end.0);
            assert(is_purchase(levels, (target, zero()), end));
            if difference(target, end.0) is Some {
                let filled = difference(target, end.0)->0;
                lemma_rounded_sign(filled, target.units() - end.0.units());
                if filled.units() != 0 {
                    law_quotient_is_rounded(end.1, filled);
                    assert(is_rounded(filled, target.units() - end.0.units(), 1));
                    if quotient(end.1, filled) is Some {
                        let average = quotient(end.1, filled)->0;
                        assert(is_average_price(target, end, filled, average));
                    }
                }
            }
        }
    }
}

/// A snapshot shows the prices of a book: the best prices, the mean, the spread, the spread in basis
/// points with two places, and the average prices of a want on each side. It is there exactly where
/// all of them are.
pub proof fn law_prices_are_shown(
    r: PricingSnapshot,
    exchange: Seq<char>,
    book: OrderBook,
    qty: Decimal,
    depth: int,
    ts_ms: u64,
)
    requires
        prices_show(r, exchange, book, qty, depth, ts_ms),
        prices_fit(book, qty, depth),
    ensures
        r.exchange@ == exchange,
        book.bids().len() > 0 ==> tells(r.best_bid, Some(highest_bid(book))),
        book.bids().len() == 0 ==> r.best_bid is None,
        book.asks().len() > 0 ==> tells(r.best_ask, Some(lowest_ask(book))),
        book.asks().len() == 0 ==> r.best_ask is None,
        mid(book) matches Some(m) && tells(r.mid_price, m),
        gap(book) matches Some(s) && tells(r.spread, s),
        gap_bps(book) matches Some(d) && match d {
            Some(d) => r.spread_bps matches Some(t) && t@ == two_place_text(d),
            None => r.spread_bps is None,
        },
        vwap(book.top_asks(depth), qty) matches Some(a) && tells(r.vwap_ask, a),
        vwap(book.top_bids(depth), qty) matches Some(b) && tells(r.vwap_bid, b),
        r.vwap_qty@ == short_text(qty),
        r.ts_ms == ts_ms,
{
}

/// All prices of a book can be shown exactly where each of them is there.
pub proof fn law_prices_fit_where_each_is_there(book: OrderBook, qty: Decimal, depth: int)
    ensures
        prices_fit(book, qty, depth) <==> mid(book) is Some && gap(book) is Some && gap_bps(
            book,
        ) is Some && vwap(book.top_asks(depth), qty) is Some && vwap(
            book.top_bids(depth),
            qty,
        ) is Some,
{
}

} // verus!
