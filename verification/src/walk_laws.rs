//! How an order goes through what it is offered, trade by trade and as far as rounding goes.

use crate::decimal::{
    in_reach, is_rounded, law_difference_is_rounded, law_negated_value, law_product_is_rounded,
    law_sign_of_value, law_sum_is_rounded, negated, one_units, product, Decimal,
};
use crate::execution::{
    after_taking, beyond_limit, is_done, taken, valid_held, valid_lots, valid_tally, walked, Lot,
    OrderType, Side, Tally, Terms,
};
use crate::position::held_after;
use crate::position_laws::{
    average_overflows, gain_overflows, is_held_filled, law_fill_changes_what_is_held,
    law_fill_fails_only_by_overflow, nothing_held,
};
use crate::rounding::{law_smaller_of_two, lemma_zero_in_reach};
use vstd::prelude::*;

verus! {

/// Whether a price is within the limit of an order: not above it for a buyer, not below it for a
/// seller. Without a limit every price is.
pub open spec fn within_limit(terms: Terms, price: Decimal) -> bool {
    terms.order_type == OrderType::Limit && terms.limit is Some ==> {
        &&& terms.side == Side::Buy ==> price.units() <= (terms.limit->0).units()
        &&& terms.side == Side::Sell ==> price.units() >= (terms.limit->0).units()
    }
}

/// What is paid for a trade: price times quantity, added to the cost of the order, and taken from the
/// cash of a buyer or added to that of a seller.
pub open spec fn is_paid(side: Side, t: Tally, next: Tally, trade: Lot, paid: Decimal) -> bool {
    &&& is_rounded(paid, trade.price.units() * trade.qty.units(), one_units())
    &&& is_rounded(next.cost, t.cost.units() + paid.units(), 1)
    &&& side == Side::Buy ==> is_rounded(next.cash, t.cash.units() - paid.units(), 1)
    &&& side == Side::Sell ==> is_rounded(next.cash, t.cash.units() + paid.units(), 1)
}

/// The quantity of a trade, above zero where it is bought and below where it is sold.
pub open spec fn moved(side: Side, qty: int) -> int {
    match side {
        Side::Buy => qty,
        Side::Sell => -qty,
    }
}

/// Whether a trade takes what it can of a lot: the whole lot, or what is still wanted where that is
/// less. What is wanted falls by it, what the order has got grows by it, it is paid for, and the
/// position moves by it at the price of the lot.
pub open spec fn is_trade(side: Side, t: Tally, next: Tally, lot: Lot, trade: Lot) -> bool {
    &&& trade.price == lot.price
    &&& trade.venue == lot.venue
    &&& trade.qty == t.remaining || trade.qty == lot.qty
    &&& trade.qty.units() <= t.remaining.units()
    &&& trade.qty.units() <= lot.qty.units()
    &&& is_rounded(next.remaining, t.remaining.units() - trade.qty.units(), 1)
    &&& is_rounded(next.filled, t.filled.units() + trade.qty.units(), 1)
    &&& exists|paid: Decimal| is_paid(side, t, next, trade, paid)
    &&& is_held_filled(t.held, next.held, moved(side, trade.qty.units()), lot.price)
}

/// Whether an order makes a trade: the lot is within its limit, something is still wanted, and the
/// trade takes what it can.
pub open spec fn is_link(terms: Terms, t: Tally, next: Tally, lot: Lot, trade: Lot) -> bool {
    &&& within_limit(terms, lot.price)
    &&& t.remaining.units() != 0
    &&& is_trade(terms.side, t, next, lot, trade)
}

/// Whether trades take the first lots of a list one after the other, and lead an account through the
/// given states.
pub open spec fn is_chain(
    terms: Terms,
    lots: Seq<Lot>,
    trades: Seq<Lot>,
    states: Seq<Tally>,
) -> bool {
    &&& states.len() == trades.len() + 1
    &&& trades.len() <= lots.len()
    &&& forall|i: int|
        0 <= i < trades.len() ==> is_link(
            terms,
            states[i],
            states[i + 1],
            lots[i],
            #[trigger] trades[i],
        )
}

/// Whether an order that goes through a list of lots ends as given: it takes the first lots one after
/// the other, and leaves off only where the list ends, nothing is wanted any more, or the next price
/// is not within the limit.
pub open spec fn is_walk(
    terms: Terms,
    lots: Seq<Lot>,
    start: Tally,
    end: Tally,
    trades: Seq<Lot>,
) -> bool {
    &&& exists|states: Seq<Tally>| #[trigger]
        is_chain(terms, lots, trades, states) && states.first() == start && states.last() == end
    &&& trades.len() == lots.len() || end.remaining.units() == 0 || !within_limit(
        terms,
        lots[trades.len() as int].price,
    )
}

/// A price is beyond the limit exactly where it is not within it.
proof fn lemma_beyond(terms: Terms, price: Decimal)
    ensures
        beyond_limit(terms, price) <==> !within_limit(terms, price),
{
}

/// Taking what is wanted of a lot is a trade.
pub proof fn law_taking_a_lot_is_a_trade(side: Side, t: Tally, lot: Lot)
    requires
        valid_tally(t),
        valid_held(t.held),
        lot.price.valid(),
        lot.qty.valid(),
        after_taking(side, t, lot) is Some,
    ensures
        is_trade(side, t, after_taking(side, t, lot)->0, lot, taken(t, lot)),
        valid_tally(after_taking(side, t, lot)->0),
        valid_held(after_taking(side, t, lot)->0.held),
{
    let next = after_taking(side, t, lot)->0;
    let trade = taken(t, lot);
    let qty = trade.qty;
    law_smaller_of_two(t.remaining, lot.qty);
    let paid = product(lot.price, qty)->0;
    law_product_is_rounded(lot.price, qty);
    law_difference_is_rounded(t.remaining, qty);
    law_sum_is_rounded(t.filled, qty);
    law_sum_is_rounded(t.cost, paid);
    law_sum_is_rounded(t.cash, paid);
    law_difference_is_rounded(t.cash, paid);
    assert(is_paid(side, t, next, trade, paid));
    law_negated_value(qty);
    let by = match side {
        Side::Buy => qty,
        Side::Sell => negated(qty),
    };
    law_fill_changes_what_is_held(t.held, by, lot.price);
}

/// The lots behind the first.
proof fn lemma_rest_valid(lots: Seq<Lot>)
    requires
        lots.len() > 0,
        valid_lots(lots),
    ensures
        valid_lots(lots.drop_first()),
        lots.first().price.valid(),
        lots.first().qty.valid(),
{
    let rest = lots.drop_first();
    assert(lots.first() == lots[0]);
    assert forall|i: int| 0 <= i < rest.len() implies (#[trigger] rest[i]).price.valid()
        && rest[i].qty.valid() by {
        assert(rest[i] == lots[i + 1]);
    }
}

/// A trade and the chain behind it are a chain.
proof fn lemma_longer_chain(
    terms: Terms,
    lots: Seq<Lot>,
    t: Tally,
    trade: Lot,
    trades: Seq<Lot>,
    states: Seq<Tally>,
)
    requires
        lots.len() > 0,
        is_chain(terms, lots.drop_first(), trades, states),
        within_limit(terms, lots.first().price),
        t.remaining.units() != 0,
        is_trade(terms.side, t, states.first(), lots.first(), trade),
    ensures
        is_chain(terms, lots, seq![trade] + trades, seq![t] + states),
        (seq![t] + states).first() == t,
        (seq![t] + states).last() == states.last(),
{
    let (all, path) = (seq![trade] + trades, seq![t] + states);
    assert(lots[0] == lots.first());
    assert forall|i: int| 0 <= i < all.len() implies is_link(
        terms,
        path[i],
        path[i + 1],
        lots[i],
        #[trigger] all[i],
    ) by {
        if i > 0 {
            assert(all[i] == trades[i - 1]);
            assert(path[i] == states[i - 1] && path[i + 1] == states[i]);
            assert(lots[i] == lots.drop_first()[i - 1]);
        } else {
            assert(path[1] == states[0]);
        }
    }
}

/// An order goes through its offers trade by trade, each for as much as it can get, at the price and
/// on the venue of the offer and paid for in full, until it has what it wants, the offers end or the
/// next is beyond its limit.
pub proof fn law_order_trades_lot_by_lot(terms: Terms, lots: Seq<Lot>, t: Tally)
    requires
        valid_tally(t),
        valid_held(t.held),
        valid_lots(lots),
        walked(terms, lots, t) is Some,
    ensures
        is_walk(terms, lots, t, (walked(terms, lots, t)->0).0, (walked(terms, lots, t)->0).1),
        valid_tally((walked(terms, lots, t)->0).0),
        valid_held((walked(terms, lots, t)->0).0.held),
    decreases lots.len(),
{
    let (end, trades) = walked(terms, lots, t)->0;
    law_sign_of_value(t.remaining);
    if lots.len() > 0 {
        lemma_beyond(terms, lots.first().price);
        assert(lots[0] == lots.first());
    }
    if is_done(terms, lots, t) {
        let states = seq![t];
        assert(trades.len() == 0);
        assert(is_chain(terms, lots, trades, states));
        assert(states.first() == t && states.last() == t);
    } else {
        let lot = lots.first();
        let rest = lots.drop_first();
        let next = after_taking(terms.side, t, lot)->0;
        lemma_rest_valid(lots);
        law_taking_a_lot_is_a_trade(terms.side, t, lot);
        law_order_trades_lot_by_lot(terms, rest, next);
        let inner = (walked(terms, rest, next)->0).1;
        let states = choose|states: Seq<Tally>| #[trigger]
            is_chain(terms, rest, inner, states) && states.first() == next && states.last() == end;
        lemma_longer_chain(terms, lots, t, taken(t, lot), inner, states);
        assert(trades =~= seq![taken(t, lot)] + inner);
        if trades.len() < lots.len() {
            assert(lots[trades.len() as int] == rest[inner.len() as int]);
        }
    }
}

/// What is still wanted of a lot.
pub open spec fn wanted_of(t: Tally, lot: Lot) -> int {
    if t.remaining.units() < lot.qty.units() {
        t.remaining.units()
    } else {
        lot.qty.units()
    }
}

/// Whether taking what is wanted of a lot leaves what decimals can hold.
pub open spec fn trade_overflows(side: Side, t: Tally, lot: Lot) -> bool {
    let qty = wanted_of(t, lot);
    let by = moved(side, qty);
    let from = match t.held {
        Some(p) => p,
        None => nothing_held(),
    };
    ||| !in_reach(t.remaining.units() - qty, 1)
    ||| !in_reach(t.filled.units() + qty, 1)
    ||| !in_reach(lot.price.units() * qty, one_units())
    ||| exists|paid: Decimal|
        {
            &&& #[trigger] is_rounded(paid, lot.price.units() * qty, one_units())
            &&& {
                ||| !in_reach(t.cost.units() + paid.units(), 1)
                ||| side == Side::Buy && !in_reach(t.cash.units() - paid.units(), 1)
                ||| side == Side::Sell && !in_reach(t.cash.units() + paid.units(), 1)
            }
        }
    ||| by != 0 && (from.qty.units() == 0 || (from.qty.units() > 0) == (by > 0))
        && average_overflows(from, by, lot.price)
    ||| by != 0 && from.qty.units() != 0 && (from.qty.units() > 0) != (by > 0) && gain_overflows(
        from,
        by,
        lot.price,
    )
}

/// Taking what is wanted of a lot fails only where some amount that it needs leaves what decimals can
/// hold.
pub proof fn law_taking_fails_only_by_overflow(side: Side, t: Tally, lot: Lot)
    requires
        valid_tally(t),
        valid_held(t.held),
        lot.price.valid(),
        lot.qty.valid(),
        after_taking(side, t, lot) is None,
    ensures
        trade_overflows(side, t, lot),
{
    let qty = taken(t, lot).qty;
    law_smaller_of_two(t.remaining, lot.qty);
    assert(qty.units() == wanted_of(t, lot));
    law_product_is_rounded(lot.price, qty);
    law_difference_is_rounded(t.remaining, qty);
    law_sum_is_rounded(t.filled, qty);
    law_negated_value(qty);
    let by = match side {
        Side::Buy => qty,
        Side::Sell => negated(qty),
    };
    assert(by.units() == moved(side, wanted_of(t, lot)));
    law_sign_of_value(by);
    lemma_zero_in_reach();
    if product(lot.price, qty) is Some {
        let paid = product(lot.price, qty)->0;
        law_sum_is_rounded(t.cost, paid);
        law_sum_is_rounded(t.cash, paid);
        law_difference_is_rounded(t.cash, paid);
        if held_after(t.held, by, lot.price) is None {
            let from = match t.held {
                Some(p) => p,
                None => nothing_held(),
            };
            law_fill_fails_only_by_overflow(from, by, lot.price);
        }
    }
}

/// Going through offers fails only where, after some trades, the next one would leave what decimals
/// can hold.
pub proof fn law_order_fails_only_by_overflow(terms: Terms, lots: Seq<Lot>, t: Tally)
    requires
        valid_tally(t),
        valid_held(t.held),
        valid_lots(lots),
        walked(terms, lots, t) is None,
    ensures
        walk_overflows(terms, lots, t),
    decreases lots.len(),
{
    let lot = lots.first();
    let rest = lots.drop_first();
    law_sign_of_value(t.remaining);
    assert(lots[0] == lot);
    lemma_beyond(terms, lot.price);
    lemma_rest_valid(lots);
    match after_taking(terms.side, t, lot) {
        None => {
            law_taking_fails_only_by_overflow(terms.side, t, lot);
            let (trades, states) = (Seq::<Lot>::empty(), seq![t]);
            assert(is_chain(terms, lots, trades, states));
            assert(states.first() == t && states.last() == t);
        },
        Some(next) => {
            law_taking_a_lot_is_a_trade(terms.side, t, lot);
            law_order_fails_only_by_overflow(terms, rest, next);
            let (trades, states) = choose|trades: Seq<Lot>, states: Seq<Tally>|
                {
                    &&& #[trigger] is_chain(terms, rest, trades, states)
                    &&& states.first() == next
                    &&& trades.len() < rest.len()
                    &&& trade_overflows(
                        terms.side,
                        states.last(),
                        rest[trades.len() as int],
                    )
                };
            lemma_longer_chain(terms, lots, t, taken(t, lot), trades, states);
            let all = seq![taken(t, lot)] + trades;
            assert(lots[all.len() as int] == rest[trades.len() as int]);
            assert(is_chain(terms, lots, all, seq![t] + states));
        },
    }
}

/// Whether an order that goes through a list of lots comes, after some trades, to one that would leave
/// what decimals can hold.
pub open spec fn walk_overflows(terms: Terms, lots: Seq<Lot>, t: Tally) -> bool {
    exists|trades: Seq<Lot>, states: Seq<Tally>|
        {
            &&& #[trigger] is_chain(terms, lots, trades, states)
            &&& states.first() == t
            &&& trades.len() < lots.len()
            &&& trade_overflows(terms.side, states.last(), lots[trades.len() as int])
        }
}

} // verus!
