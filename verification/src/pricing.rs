//! Prices that are read off a book.

use crate::book::{law_top_levels, Level, OrderBook};
use crate::decimal::{
    difference, difference_is_exact, divides_evenly, group_decimal, law_even_quotient_value,
    law_sign_of_value, lemma_outcomes_valid, one_units, over, plus, product, product_is_exact,
    quotient, quotient_is_exact, short_text, short_text_of, smaller, sum, sum_is_exact, times,
    two_place_text, whole, zero, Decimal,
};
use crate::matching::{copy_text, optional_text, text_of};
use crate::position::lemma_one_units;
use crate::wants::{
    all_offer, cost_of_want, filled_of_want, lemma_amounts_rest, lemma_average_falls,
    lemma_average_rises, lemma_bounds, lemma_cost_within, prices_fall, prices_rise, prices_within,
};
use vstd::prelude::*;

verus! {

/// The prices of a book as they are shown.
#[derive(Debug)]
pub struct PricingSnapshot {
    pub exchange: String,
    pub mid_price: Option<String>,
    pub vwap_ask: Option<String>,
    pub vwap_bid: Option<String>,
    pub vwap_qty: String,
    pub spread: Option<String>,
    pub spread_bps: Option<String>,
    pub best_bid: Option<String>,
    pub best_ask: Option<String>,
    pub ts_ms: u64,
}

impl Clone for PricingSnapshot {
    /// The same prices.
    fn clone(&self) -> (r: PricingSnapshot)
        ensures
            r == *self,
    {
        PricingSnapshot {
            exchange: self.exchange.clone(),
            mid_price: copy_text(&self.mid_price),
            vwap_ask: copy_text(&self.vwap_ask),
            vwap_bid: copy_text(&self.vwap_bid),
            vwap_qty: self.vwap_qty.clone(),
            spread: copy_text(&self.spread),
            spread_bps: copy_text(&self.spread_bps),
            best_bid: copy_text(&self.best_bid),
            best_ask: copy_text(&self.best_ask),
            ts_ms: self.ts_ms,
        }
    }
}

/// An outcome that is there unless the arithmetic overflows, as an outcome that may be missing for
/// another reason: the outer `None` is the overflow.
pub open spec fn given(d: Option<Decimal>) -> Option<Option<Decimal>> {
    match d {
        Some(d) => Some(Some(d)),
        None => None,
    }
}

/// The mean of the best bid and the best ask; none for a book that lacks one of them. The outer
/// `None` is an overflow.
pub open spec fn mid(book: OrderBook) -> Option<Option<Decimal>> {
    match (book.top_bid(), book.top_ask()) {
        (Some(bid), Some(ask)) => given(over(sum(bid.0, ask.0), Some(whole(2)))),
        _ => Some(None),
    }
}

/// The best ask less the best bid; none for a book that lacks one of them. The outer `None` is an
/// overflow.
pub open spec fn gap(book: OrderBook) -> Option<Option<Decimal>> {
    match (book.top_bid(), book.top_ask()) {
        (Some(bid), Some(ask)) => given(difference(ask.0, bid.0)),
        _ => Some(None),
    }
}

/// The spread in ten-thousandths of the mean; none where there is no mean or it is zero. The outer
/// `None` is an overflow.
pub open spec fn gap_bps(book: OrderBook) -> Option<Option<Decimal>> {
    match (mid(book), gap(book)) {
        (Some(Some(m)), Some(Some(s))) => if m.coefficient() == 0 {
            Some(None)
        } else {
            given(times(quotient(s, m), Some(whole(10000))))
        },
        (Some(None), Some(None)) => Some(None),
        _ => None,
    }
}

/// What is still wanted and what has been paid after going through levels until nothing is wanted.
/// `None` where the arithmetic overflows.
pub open spec fn paid_through(levels: Seq<Level>, remaining: Decimal, cost: Decimal) -> Option<
    (Decimal, Decimal),
>
    decreases levels.len(),
{
    if levels.len() == 0 {
        Some((remaining, cost))
    } else {
        let fill = smaller(remaining, levels.first().1);
        match (
            plus(Some(cost), product(levels.first().0, fill)),
            difference(remaining, fill),
        ) {
            (Some(c), Some(r)) => if r.coefficient() == 0 {
                Some((r, c))
            } else {
                paid_through(levels.drop_first(), r, c)
            },
            _ => None,
        }
    }
}

/// The average price at which levels would fill a quantity, as far as they reach; none where there
/// is nothing to fill or nothing to fill it from. The outer `None` is an overflow.
pub open spec fn vwap(levels: Seq<Level>, target: Decimal) -> Option<Option<Decimal>> {
    if levels.len() == 0 || target.coefficient() == 0 {
        Some(None)
    } else {
        match paid_through(levels, target, zero()) {
            None => None,
            Some((remaining, cost)) => match difference(target, remaining) {
                None => None,
                Some(filled) => if filled.coefficient() == 0 {
                    Some(None)
                } else {
                    given(quotient(cost, filled))
                },
            },
        }
    }
}

/// The mean, or `None` where the arithmetic overflows.
pub fn try_mid_price(book: &OrderBook) -> (r: Option<Option<Decimal>>)
    ensures
        r == mid(*book),
{
    match (book.best_bid(), book.best_ask()) {
        (Some(bid), Some(ask)) => {
            let both = bid.0.checked_add(ask.0)?;
            let m = both.checked_div(Decimal::from_int(2))?;
            Some(Some(m))
        },
        _ => Some(None),
    }
}

/// The spread, or `None` where the arithmetic overflows.
pub fn try_spread(book: &OrderBook) -> (r: Option<Option<Decimal>>)
    ensures
        r == gap(*book),
{
    match (book.best_bid(), book.best_ask()) {
        (Some(bid), Some(ask)) => {
            let s = ask.0.checked_sub(bid.0)?;
            Some(Some(s))
        },
        _ => Some(None),
    }
}

/// The spread in ten-thousandths, or `None` where the arithmetic overflows.
pub fn try_spread_bps(book: &OrderBook) -> (r: Option<Option<Decimal>>)
    ensures
        r == gap_bps(*book),
{
    let m = try_mid_price(book)?;
    let s = try_spread(book)?;
    match (m, s) {
        (Some(m), Some(s)) => {
            if m.is_zero() {
                return Some(None);
            }
            let share = s.checked_div(m)?;
            let bps = share.checked_mul(Decimal::from_int(10000))?;
            Some(Some(bps))
        },
        _ => Some(None),
    }
}

/// The average price over levels, or `None` where the arithmetic overflows.
fn vwap_walk(levels: &Vec<Level>, target_qty: Decimal) -> (r: Option<Option<Decimal>>)
    ensures
        r == vwap(levels@, target_qty),
{
    if levels.len() == 0 || target_qty.is_zero() {
        return Some(None);
    }
    let mut remaining = target_qty;
    let mut cost = Decimal::zero();
    let mut i: usize = 0;
    let ghost all = paid_through(levels@, target_qty, zero());
    assert(levels@.skip(0) =~= levels@);
    while i < levels.len()
        invariant_except_break
            all == paid_through(levels@.skip(i as int), remaining, cost),
        invariant
            i <= levels.len(),
            all == paid_through(levels@, target_qty, zero()),
            levels@.len() > 0,
            target_qty.coefficient() != 0,
        ensures
            all == Some((remaining, cost)),
        decreases levels.len() - i,
    {
        let (price, qty) = levels[i];
        assert(levels@.skip(i as int).drop_first() =~= levels@.skip(i + 1));
        let fill = remaining.min(qty);
        let paid = price.checked_mul(fill)?;
        cost = cost.checked_add(paid)?;
        remaining = remaining.checked_sub(fill)?;
        i += 1;
        if remaining.is_zero() {
            break;
        }
    }
    let filled = target_qty.checked_sub(remaining)?;
    if filled.is_zero() {
        return Some(None);
    }
    let average = cost.checked_div(filled)?;
    Some(Some(average))
}

/// The mean of the best bid and the best ask.
pub fn mid_price(book: &OrderBook) -> (r: Option<Decimal>)
    requires
        mid(*book) is Some,
    ensures
        mid(*book) == Some(r),
{
    try_mid_price(book).unwrap()
}

/// The best ask less the best bid.
pub fn spread(book: &OrderBook) -> (r: Option<Decimal>)
    requires
        gap(*book) is Some,
    ensures
        gap(*book) == Some(r),
{
    try_spread(book).unwrap()
}

/// The spread in ten-thousandths of the mean.
pub fn spread_bps(book: &OrderBook) -> (r: Option<Decimal>)
    requires
        gap_bps(*book) is Some,
    ensures
        gap_bps(*book) == Some(r),
{
    try_spread_bps(book).unwrap()
}

/// The average price at which the best asks would fill a quantity, or `None` where the arithmetic
/// overflows.
pub fn try_vwap_ask(book: &OrderBook, qty: Decimal, depth: usize) -> (r: Option<Option<Decimal>>)
    ensures
        r == vwap(book.top_asks(depth as int), qty),
{
    let (_, asks) = book.top(depth);
    vwap_walk(&asks, qty)
}

/// The average price at which the best bids would fill a quantity, or `None` where the arithmetic
/// overflows.
pub fn try_vwap_bid(book: &OrderBook, qty: Decimal, depth: usize) -> (r: Option<Option<Decimal>>)
    ensures
        r == vwap(book.top_bids(depth as int), qty),
{
    let (bids, _) = book.top(depth);
    vwap_walk(&bids, qty)
}

/// The average price at which the best asks would fill a quantity.
pub fn vwap_ask(book: &OrderBook, qty: Decimal, depth: usize) -> (r: Option<Decimal>)
    requires
        vwap(book.top_asks(depth as int), qty) is Some,
    ensures
        vwap(book.top_asks(depth as int), qty) == Some(r),
{
    try_vwap_ask(book, qty, depth).unwrap()
}

/// The average price at which the best bids would fill a quantity.
pub fn vwap_bid(book: &OrderBook, qty: Decimal, depth: usize) -> (r: Option<Decimal>)
    requires
        vwap(book.top_bids(depth as int), qty) is Some,
    ensures
        vwap(book.top_bids(depth as int), qty) == Some(r),
{
    try_vwap_bid(book, qty, depth).unwrap()
}

/// Whether all prices of a book can be worked out without overflow.
pub open spec fn prices_fit(book: OrderBook, qty: Decimal, depth: int) -> bool {
    &&& mid(book) is Some
    &&& gap(book) is Some
    &&& gap_bps(book) is Some
    &&& vwap(book.top_asks(depth), qty) is Some
    &&& vwap(book.top_bids(depth), qty) is Some
}

/// `two_place_text` of a decimal that may be missing.
pub open spec fn two_place_text_of(d: Option<Decimal>) -> Option<Seq<char>> {
    match d {
        Some(d) => Some(two_place_text(d)),
        None => None,
    }
}

/// The price of a level that may be missing.
pub open spec fn price_of(l: Option<Level>) -> Option<Decimal> {
    match l {
        Some(l) => Some(l.0),
        None => None,
    }
}

/// Whether a snapshot shows the prices of a book.
pub open spec fn prices_show(
    r: PricingSnapshot,
    exchange: Seq<char>,
    book: OrderBook,
    qty: Decimal,
    depth: int,
    ts_ms: u64,
) -> bool {
    &&& r.exchange@ == exchange
    &&& text_of(r.mid_price) == short_text_of(mid(book)->0)
    &&& text_of(r.vwap_ask) == short_text_of(vwap(book.top_asks(depth), qty)->0)
    &&& text_of(r.vwap_bid) == short_text_of(vwap(book.top_bids(depth), qty)->0)
    &&& r.vwap_qty@ == short_text(qty)
    &&& text_of(r.spread) == short_text_of(gap(book)->0)
    &&& text_of(r.spread_bps) == two_place_text_of(gap_bps(book)->0)
    &&& text_of(r.best_bid) == short_text_of(price_of(book.top_bid()))
    &&& text_of(r.best_ask) == short_text_of(price_of(book.top_ask()))
    &&& r.ts_ms == ts_ms
}

/// The prices of a book as they are shown.
pub fn snapshot(
    exchange: &str,
    book: &OrderBook,
    vwap_qty: Decimal,
    depth: usize,
    ts_ms: u64,
) -> (r: PricingSnapshot)
    requires
        prices_fit(*book, vwap_qty, depth as int),
    ensures
        prices_show(r, exchange@, *book, vwap_qty, depth as int, ts_ms),
{
    let best_bid = match book.best_bid() {
        Some(l) => Some(l.0),
        None => None,
    };
    let best_ask = match book.best_ask() {
        Some(l) => Some(l.0),
        None => None,
    };
    PricingSnapshot {
        exchange: String::from_str(exchange),
        mid_price: optional_text(mid_price(book)),
        vwap_ask: optional_text(vwap_ask(book, vwap_qty, depth)),
        vwap_bid: optional_text(vwap_bid(book, vwap_qty, depth)),
        vwap_qty: vwap_qty.to_text(),
        spread: optional_text(spread(book)),
        spread_bps: match spread_bps(book) {
            Some(d) => Some(d.to_two_places()),
            None => None,
        },
        best_bid: optional_text(best_bid),
        best_ask: optional_text(best_ask),
        ts_ms,
    }
}

/// The prices of a book as they are shown, or `None` where one of them overflows.
pub fn try_snapshot(
    exchange: &str,
    book: &OrderBook,
    vwap_qty: Decimal,
    depth: usize,
    ts_ms: u64,
) -> (r: Option<PricingSnapshot>)
    ensures
        r is Some <==> prices_fit(*book, vwap_qty, depth as int),
        r matches Some(s) ==> prices_show(s, exchange@, *book, vwap_qty, depth as int, ts_ms),
{
    if try_mid_price(book).is_some() && try_spread(book).is_some() && try_spread_bps(book).is_some()
        && try_vwap_ask(book, vwap_qty, depth).is_some() && try_vwap_bid(
        book,
        vwap_qty,
        depth,
    ).is_some() {
        Some(snapshot(exchange, book, vwap_qty, depth, ts_ms))
    } else {
        None
    }
}

/// A book that lacks a side has no mean and no spread.
pub proof fn law_one_side_has_no_mean(book: OrderBook)
    requires
        book.bids().len() == 0 || book.asks().len() == 0,
    ensures
        mid(book) == Some(None::<Decimal>),
        gap(book) == Some(None::<Decimal>),
        gap_bps(book) == Some(None::<Decimal>),
{
}

/// Where it needs no rounding, the spread is the distance of the best prices: above zero exactly
/// where the book is not crossed.
pub proof fn law_spread_of_uncrossed_book(book: OrderBook)
    requires
        book.bids().len() > 0,
        book.asks().len() > 0,
        difference_is_exact((book.top_ask()->0).0, (book.top_bid()->0).0),
        gap(book) is Some,
    ensures
        gap(book) matches Some(Some(s)) && s.units() == (book.top_ask()->0).0.units() - (
        book.top_bid()->0).0.units() && (s.units() > 0 <==> !book.crossed()),
{
}

/// Where the sum of the best prices needs no rounding and a decimal has the value of its half, the
/// mean is that half, and lies between the best bid and the best ask of a book that is not crossed.
pub proof fn law_mean_lies_between(book: OrderBook)
    requires
        book.bids().len() > 0,
        book.asks().len() > 0,
        (book.top_bid()->0).0.valid(),
        (book.top_ask()->0).0.valid(),
        sum((book.top_bid()->0).0, (book.top_ask()->0).0) is Some,
        sum_is_exact((book.top_bid()->0).0, (book.top_ask()->0).0),
        divides_evenly(sum((book.top_bid()->0).0, (book.top_ask()->0).0)->0, whole(2)),
    ensures
        mid(book) matches Some(Some(m)) && m.units() * 2 == (book.top_bid()->0).0.units() + (
        book.top_ask()->0).0.units() && (!book.crossed() ==> (book.top_bid()->0).0.units()
            <= m.units() <= (book.top_ask()->0).0.units()),
{
    broadcast use group_decimal;

    let (bid, ask) = ((book.top_bid()->0).0, (book.top_ask()->0).0);
    let both = sum(bid, ask)->0;
    lemma_outcomes_valid(bid, ask);
    law_even_quotient_value(both, whole(2));
    lemma_one_units();
    let m = quotient(both, whole(2))->0;
    let (x, y, one) = (m.units(), both.units(), one_units());
    assert(whole(2).units() == 2 * one);
    assert(x * 2 == y) by (nonlinear_arith)
        requires
            x * (2 * one) == y * one,
            one > 0,
    ;
}

/// Whether going through levels never rounds what is still wanted.
pub open spec fn counts_down_exactly(levels: Seq<Level>, remaining: Decimal, cost: Decimal) -> bool
    decreases levels.len(),
{
    levels.len() == 0 || {
        let fill = smaller(remaining, levels.first().1);
        &&& difference_is_exact(remaining, fill)
        &&& match (
            plus(Some(cost), product(levels.first().0, fill)),
            difference(remaining, fill),
        ) {
            (Some(c), Some(r)) => r.coefficient() == 0 || counts_down_exactly(
                levels.drop_first(),
                r,
                c,
            ),
            _ => true,
        }
    }
}

/// Where what is wanted is never rounded, going through levels never leaves a want below zero behind.
pub proof fn law_want_is_never_overfilled(levels: Seq<Level>, remaining: Decimal, cost: Decimal)
    requires
        remaining.units() >= 0,
        counts_down_exactly(levels, remaining, cost),
        paid_through(levels, remaining, cost) is Some,
    ensures
        (paid_through(levels, remaining, cost)->0).0.units() >= 0,
    decreases levels.len(),
{
    if levels.len() > 0 {
        let fill = smaller(remaining, levels.first().1);
        let r = difference(remaining, fill)->0;
        if r.coefficient() != 0 {
            let c = plus(Some(cost), product(levels.first().0, fill))->0;
            law_want_is_never_overfilled(levels.drop_first(), r, c);
        }
    }
}

/// The prices and the quantities of levels, in units.
pub open spec fn amounts(levels: Seq<Level>) -> Seq<(int, int)> {
    levels.map_values(|l: Level| (l.0.units(), l.1.units()))
}

/// Whether the decimals of levels are decimals.
pub open spec fn valid_levels(levels: Seq<Level>) -> bool {
    forall|i: int| 0 <= i < levels.len() ==> (#[trigger] levels[i]).0.valid() && levels[i].1.valid()
}

/// Whether going through levels rounds nothing.
pub open spec fn pays_exactly(levels: Seq<Level>, remaining: Decimal, cost: Decimal) -> bool
    decreases levels.len(),
{
    levels.len() == 0 || {
        let fill = smaller(remaining, levels.first().1);
        let paid = product(levels.first().0, fill);
        &&& difference_is_exact(remaining, fill)
        &&& product_is_exact(levels.first().0, fill)
        &&& paid is Some ==> sum_is_exact(cost, paid->0)
        &&& match (plus(Some(cost), paid), difference(remaining, fill)) {
            (Some(c), Some(r)) => r.coefficient() == 0 || pays_exactly(levels.drop_first(), r, c),
            _ => true,
        }
    }
}

/// Whether an average price is worked out without rounding.
pub open spec fn averages_exactly(levels: Seq<Level>, target: Decimal) -> bool {
    &&& pays_exactly(levels, target, zero())
    &&& paid_through(levels, target, zero()) matches Some((remaining, cost)) ==> {
        &&& difference_is_exact(target, remaining)
        &&& difference(target, remaining) matches Some(filled) ==> quotient_is_exact(cost, filled)
    }
}

/// Going through levels without rounding leaves what they do not fill, and costs what they ask.
proof fn lemma_paid_through(levels: Seq<Level>, remaining: Decimal, cost: Decimal)
    requires
        valid_levels(levels),
        all_offer(amounts(levels)),
        remaining.valid(),
        cost.valid(),
        remaining.units() > 0,
        pays_exactly(levels, remaining, cost),
        paid_through(levels, remaining, cost) is Some,
    ensures
        ({
            let (r, c) = paid_through(levels, remaining, cost)->0;
            let a = amounts(levels);
            &&& r.valid()
            &&& c.valid()
            &&& r.units() == remaining.units() - filled_of_want(a, remaining.units())
            &&& c.units() * one_units() == cost.units() * one_units() + cost_of_want(
                a,
                remaining.units(),
            )
        }),
    decreases levels.len(),
{
    let a = amounts(levels);
    if levels.len() > 0 {
        let l = levels.first();
        let rest = levels.drop_first();
        assert(l == levels[0]);
        assert(a.first() == (l.0.units(), l.1.units()));
        assert(a.drop_first() =~= amounts(rest));
        lemma_amounts_rest(a);
        let fill = smaller(remaining, l.1);
        let paid = product(l.0, fill)->0;
        lemma_outcomes_valid(l.0, fill);
        lemma_outcomes_valid(cost, paid);
        lemma_outcomes_valid(remaining, fill);
        let c = sum(cost, paid)->0;
        let r = difference(remaining, fill)->0;
        law_sign_of_value(r);
        let (x, y, one) = (cost.units(), paid.units(), one_units());
        assert((x + y) * one == x * one + y * one) by (nonlinear_arith);
        assert(a.first().0 * fill.units() == y * one);
        if r.coefficient() != 0 {
            assert forall|i: int| 0 <= i < rest.len() implies (#[trigger] rest[i]).0.valid()
                && rest[i].1.valid() by {
                assert(rest[i] == levels[i + 1]);
            }
            lemma_paid_through(rest, r, c);
        }
    }
}

/// Where nothing is rounded, the average price times what is filled is what the fill costs. What is
/// filled is the want, or all that the levels offer.
pub proof fn law_average_pays_the_cost(levels: Seq<Level>, target: Decimal)
    requires
        levels.len() > 0,
        valid_levels(levels),
        all_offer(amounts(levels)),
        target.valid(),
        target.units() > 0,
        averages_exactly(levels, target),
        vwap(levels, target) is Some,
    ensures
        vwap(levels, target) matches Some(Some(average)) && average.units() * filled_of_want(
            amounts(levels),
            target.units(),
        ) == cost_of_want(amounts(levels), target.units()),
        filled_of_want(amounts(levels), target.units()) > 0,
{
    broadcast use group_decimal;

    let a = amounts(levels);
    law_sign_of_value(target);
    law_sign_of_value(zero());
    assert(a.first() == (levels[0].0.units(), levels[0].1.units()));
    lemma_amounts_rest(a);
    lemma_paid_through(levels, target, zero());
    let (r, c) = paid_through(levels, target, zero())->0;
    lemma_outcomes_valid(target, r);
    let filled = difference(target, r)->0;
    law_sign_of_value(filled);
    assert(0 * one_units() == 0);
}

/// Where nothing is rounded, an average price lies between the lowest and the highest price of the
/// levels, and is the first price where the first level covers the want.
pub proof fn law_average_lies_between(levels: Seq<Level>, target: Decimal, low: int, high: int)
    requires
        levels.len() > 0,
        valid_levels(levels),
        all_offer(amounts(levels)),
        target.valid(),
        target.units() > 0,
        averages_exactly(levels, target),
        vwap(levels, target) is Some,
        prices_within(amounts(levels), low, high),
    ensures
        vwap(levels, target) matches Some(Some(average)) && low <= average.units() <= high && (
        target.units() <= levels[0].1.units() ==> average.units() == levels[0].0.units()),
{
    let a = amounts(levels);
    law_average_pays_the_cost(levels, target);
    lemma_cost_within(a, target.units(), low, high);
    lemma_amounts_rest(a);
    let v = (vwap(levels, target)->0)->0;
    let (x, f, w) = (v.units(), filled_of_want(a, target.units()), target.units());
    assert(low <= x <= high) by (nonlinear_arith)
        requires
            low * f <= x * f <= high * f,
            f > 0,
    ;
    if w <= levels[0].1.units() {
        let p = levels[0].0.units();
        assert(a.first() == (p, levels[0].1.units()));
        assert(x == p) by (nonlinear_arith)
            requires
                x * w == p * w,
                w > 0,
        ;
    }
}

/// Where nothing is rounded, an average price does not improve as the want grows: where prices rise
/// it does not fall, and where they fall it does not rise.
pub proof fn law_average_never_improves(levels: Seq<Level>, less: Decimal, more: Decimal)
    requires
        levels.len() > 0,
        valid_levels(levels),
        all_offer(amounts(levels)),
        less.valid(),
        more.valid(),
        0 < less.units() <= more.units(),
        averages_exactly(levels, less),
        averages_exactly(levels, more),
        vwap(levels, less) is Some,
        vwap(levels, more) is Some,
    ensures
        ({
            let (x, y) = ((vwap(levels, less)->0)->0, (vwap(levels, more)->0)->0);
            &&& vwap(levels, less)->0 is Some
            &&& vwap(levels, more)->0 is Some
            &&& prices_rise(amounts(levels)) ==> x.units() <= y.units()
            &&& prices_fall(amounts(levels)) ==> x.units() >= y.units()
        }),
{
    let a = amounts(levels);
    law_average_pays_the_cost(levels, less);
    law_average_pays_the_cost(levels, more);
    let bounds = lemma_bounds(a);
    let (x, y) = (((vwap(levels, less)->0)->0).units(), ((vwap(levels, more)->0)->0).units());
    let (f1, f2) = (filled_of_want(a, less.units()), filled_of_want(a, more.units()));
    if prices_rise(a) {
        lemma_average_rises(a, less.units(), more.units(), bounds.1);
        assert(x <= y) by (nonlinear_arith)
            requires
                (x * f1) * f2 <= (y * f2) * f1,
                f1 > 0,
                f2 > 0,
        ;
    }
    if prices_fall(a) {
        lemma_average_falls(a, less.units(), more.units(), bounds.0);
        assert(x >= y) by (nonlinear_arith)
            requires
                (x * f1) * f2 >= (y * f2) * f1,
                f1 > 0,
                f2 > 0,
        ;
    }
}

/// Where nothing is rounded, the average ask for a want is not below the best ask, is the best ask
/// where its level covers the want, and does not fall as the want grows.
pub proof fn law_average_ask(book: OrderBook, less: Decimal, more: Decimal, depth: int)
    requires
        book.wf(),
        book.asks().len() > 0,
        depth >= 1,
        valid_levels(book.top_asks(depth)),
        all_offer(amounts(book.top_asks(depth))),
        less.valid(),
        more.valid(),
        0 < less.units() <= more.units(),
        averages_exactly(book.top_asks(depth), less),
        averages_exactly(book.top_asks(depth), more),
        vwap(book.top_asks(depth), less) is Some,
        vwap(book.top_asks(depth), more) is Some,
    ensures
        ({
            let levels = book.top_asks(depth);
            let (p, q) = book.top_ask()->0;
            let (x, y) = ((vwap(levels, less)->0)->0, (vwap(levels, more)->0)->0);
            &&& vwap(levels, less)->0 is Some
            &&& vwap(levels, more)->0 is Some
            &&& p.units() <= x.units() <= y.units()
            &&& less.units() <= q.units() ==> x.units() == p.units()
        }),
{
    let levels = book.top_asks(depth);
    let a = amounts(levels);
    law_top_levels(book, 1, depth);
    assert(levels[0] == book.top_ask()->0);
    assert(prices_rise(a));
    let bounds = lemma_bounds(a);
    law_average_lies_between(levels, less, bounds.0, bounds.1);
    law_average_never_improves(levels, less, more);
}

/// Where nothing is rounded, the average bid for a want is not above the best bid, is the best bid
/// where its level covers the want, and does not rise as the want grows.
pub proof fn law_average_bid(book: OrderBook, less: Decimal, more: Decimal, depth: int)
    requires
        book.wf(),
        book.bids().len() > 0,
        depth >= 1,
        valid_levels(book.top_bids(depth)),
        all_offer(amounts(book.top_bids(depth))),
        less.valid(),
        more.valid(),
        0 < less.units() <= more.units(),
        averages_exactly(book.top_bids(depth), less),
        averages_exactly(book.top_bids(depth), more),
        vwap(book.top_bids(depth), less) is Some,
        vwap(book.top_bids(depth), more) is Some,
    ensures
        ({
            let levels = book.top_bids(depth);
            let (p, q) = book.top_bid()->0;
            let (x, y) = ((vwap(levels, less)->0)->0, (vwap(levels, more)->0)->0);
            &&& vwap(levels, less)->0 is Some
            &&& vwap(levels, more)->0 is Some
            &&& p.units() >= x.units() >= y.units()
            &&& less.units() <= q.units() ==> x.units() == p.units()
        }),
{
    let levels = book.top_bids(depth);
    let a = amounts(levels);
    law_top_levels(book, 1, depth);
    assert(levels[0] == book.top_bid()->0);
    assert(prices_fall(a));
    let bounds = lemma_bounds(a);
    law_average_lies_between(levels, less, bounds.0, bounds.1);
    law_average_never_improves(levels, less, more);
}

/// The average ask looks at the asks alone, and the average bid at the bids.
pub proof fn law_average_looks_at_one_side(x: OrderBook, y: OrderBook, qty: Decimal, depth: int)
    ensures
        x.asks() == y.asks() ==> vwap(x.top_asks(depth), qty) == vwap(y.top_asks(depth), qty),
        x.bids() == y.bids() ==> vwap(x.top_bids(depth), qty) == vwap(y.top_bids(depth), qty),
{
}

} // verus!
