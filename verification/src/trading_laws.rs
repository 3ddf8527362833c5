//! What holds of the account over its operations.

use crate::book::OrderBook;
use crate::decimal::{
    difference, difference_is_exact, group_decimal, law_sign_of_value, lemma_outcomes_valid,
    one_units, zero, Decimal,
};
use crate::execution::{
    best_first, beyond_limit, held_units, law_cash_pays_for_the_trades, law_no_choice_is_better,
    law_nothing_is_lost, law_offers_are_best_first, law_order_gets_all_it_can,
    law_position_moves_by_the_trades, law_trades_are_best_first, law_trades_follow_the_offers,
    law_trades_ignore_the_account, lot_amounts, offers, paid_units, pays_exactly, positive_lots,
    shifts_exactly, total_units, valid_held, valid_lots, walked, walks_exactly, within_units, Lot,
    OrderType, Side, Tally, Terms,
};
use crate::matching::{
    after_retry, can_wait, is_cancelled, is_waiting, limits_run, placement, retried, takes_back,
    Order, OrderInner, OrderStatus, TradingState,
};
use crate::position::{held, with_held, PositionInner};
use crate::wants::{can_choose, chosen, cost_of_choice};
use vstd::prelude::*;

verus! {

/// A market order never waits: it is filled as far as it can be and done with.
pub proof fn law_market_orders_never_wait(
    terms: Terms,
    symbol: Seq<char>,
    quantity: Decimal,
    cash: Decimal,
    h: Seq<(Seq<char>, PositionInner)>,
    binance: OrderBook,
    coindcx: OrderBook,
)
    requires
        terms.order_type == OrderType::Market,
        placement(terms, symbol, quantity, cash, h, binance, coindcx) is Some,
    ensures
        !is_waiting((placement(terms, symbol, quantity, cash, h, binance, coindcx)->0).2),
{
}

/// The trades of an order that is placed never go beyond its limit, and their prices never improve
/// from one to the next.
pub proof fn law_placing_keeps_to_the_limit(
    terms: Terms,
    symbol: Seq<char>,
    quantity: Decimal,
    cash: Decimal,
    h: Seq<(Seq<char>, PositionInner)>,
    binance: OrderBook,
    coindcx: OrderBook,
)
    requires
        binance.wf(),
        coindcx.wf(),
        placement(terms, symbol, quantity, cash, h, binance, coindcx) is Some,
    ensures
        ({
            let trades = (placement(terms, symbol, quantity, cash, h, binance, coindcx)->0).1;
            &&& best_first(terms.side, trades)
            &&& forall|i: int|
                0 <= i < trades.len() ==> !beyond_limit(terms, (#[trigger] trades[i]).price)
        }),
{
    let start = started(quantity, cash, h, symbol);
    let lots = offers(terms.side, binance, coindcx);
    lemma_start(quantity);
    law_offers_are_best_first(terms.side, binance, coindcx);
    law_trades_follow_the_offers(terms, lots, start);
    law_trades_are_best_first(terms, lots, start);
}

/// The account of an order that is about to be placed.
pub open spec fn started(
    quantity: Decimal,
    cash: Decimal,
    h: Seq<(Seq<char>, PositionInner)>,
    symbol: Seq<char>,
) -> Tally {
    Tally {
        remaining: difference(quantity, zero())->0,
        filled: zero(),
        cost: zero(),
        cash,
        held: held(h, symbol),
    }
}

/// An order that is about to be placed wants its quantity.
pub proof fn lemma_start(quantity: Decimal)
    ensures
        difference(quantity, zero()) is Some,
        quantity.coefficient() != 0 ==> difference(quantity, zero()) == Some(
            quantity,
        ),
        quantity.coefficient() == 0 ==> difference(
            quantity,
            zero(),
        )->0.coefficient() == 0,
{
    broadcast use group_decimal;

}

/// Where no sum is rounded, placing an order loses nothing: what it got is the quantities of its
/// trades, and with what it still wants makes up what was asked for; and the cash changes by the cost
/// of the order, down for a buyer and up for a seller.
pub proof fn law_placing_loses_nothing(
    terms: Terms,
    symbol: Seq<char>,
    quantity: Decimal,
    cash: Decimal,
    h: Seq<(Seq<char>, PositionInner)>,
    binance: OrderBook,
    coindcx: OrderBook,
)
    requires
        quantity.valid(),
        cash.valid(),
        valid_lots(offers(terms.side, binance, coindcx)),
        placement(terms, symbol, quantity, cash, h, binance, coindcx) is Some,
        walks_exactly(
            terms,
            offers(terms.side, binance, coindcx),
            started(quantity, cash, h, symbol),
        ),
    ensures
        ({
            let (t, trades, status) = placement(
                terms,
                symbol,
                quantity,
                cash,
                h,
                binance,
                coindcx,
            )->0;
            &&& t.filled.units() == total_units(trades)
            &&& t.filled.units() + t.remaining.units() == quantity.units()
            &&& quantity.units() >= 0 ==> t.filled.units() <= quantity.units()
            &&& terms.side == Side::Buy ==> t.cash.units() == cash.units() - t.cost.units()
            &&& terms.side == Side::Sell ==> t.cash.units() == cash.units() + t.cost.units()
        }),
{
    broadcast use group_decimal;

    lemma_start(quantity);
    let start = started(quantity, cash, h, symbol);
    law_sign_of_value(quantity);
    law_sign_of_value(zero());
    law_sign_of_value(start.remaining);
    lemma_outcomes_valid(quantity, zero());
    law_nothing_is_lost(terms, offers(terms.side, binance, coindcx), start);
}

/// A limit order that no offer meets trades nothing, moves no cash and no position, and waits.
pub proof fn law_unmet_order_waits(
    terms: Terms,
    symbol: Seq<char>,
    quantity: Decimal,
    cash: Decimal,
    h: Seq<(Seq<char>, PositionInner)>,
    binance: OrderBook,
    coindcx: OrderBook,
)
    requires
        terms.order_type == OrderType::Limit,
        quantity.coefficient() != 0,
        offers(terms.side, binance, coindcx).len() == 0 || beyond_limit(
            terms,
            offers(terms.side, binance, coindcx).first().price,
        ),
    ensures
        ({
            let (t, trades, status) = placement(
                terms,
                symbol,
                quantity,
                cash,
                h,
                binance,
                coindcx,
            )->0;
            &&& placement(terms, symbol, quantity, cash, h, binance, coindcx) is Some
            &&& trades.len() == 0
            &&& t.cash == cash
            &&& with_held(h, symbol, t.held) == h
            &&& status == OrderStatus::Open
        }),
{
    broadcast use group_decimal;

    lemma_start(quantity);
    lemma_hold_again(h, symbol);
    law_sign_of_value(zero());
}

/// Setting a position to what it is changes nothing.
proof fn lemma_hold_again(h: Seq<(Seq<char>, PositionInner)>, symbol: Seq<char>)
    ensures
        with_held(h, symbol, held(h, symbol)) == h,
{
    assert(with_held(h, symbol, held(h, symbol)) =~= h);
}

/// An attempt without a trade leaves the account as it was.
pub proof fn lemma_no_trade(terms: Terms, lots: Seq<Lot>, t: Tally)
    requires
        walked(terms, lots, t) matches Some((end, trades)) && trades.len() == 0,
    ensures
        (walked(terms, lots, t)->0).0 == t,
{
}

/// What a waiting order starts from when it is tried again.
pub open spec fn resumed(o: OrderInner, cash: Decimal, h: Seq<(Seq<char>, PositionInner)>) -> Tally {
    Tally {
        remaining: o.rest()->0,
        filled: o.filled_qty,
        cost: o.cost_accum,
        cash,
        held: held(h, o.symbol@),
    }
}

/// The trades of an order that is tried again never go beyond its limit, and their prices never
/// improve from one to the next.
pub proof fn law_retry_keeps_to_the_limit(
    o: OrderInner,
    cash: Decimal,
    h: Seq<(Seq<char>, PositionInner)>,
    binance: OrderBook,
    coindcx: OrderBook,
)
    requires
        binance.wf(),
        coindcx.wf(),
        retried(o, cash, h, binance, coindcx) is Some,
    ensures
        ({
            let trades = retried(o, cash, h, binance, coindcx)->0.trades;
            &&& best_first(o.side, trades)
            &&& forall|i: int|
                0 <= i < trades.len() ==> !beyond_limit(o.terms(), (#[trigger] trades[i]).price)
        }),
{
    let start = resumed(o, cash, h);
    let lots = offers(o.side, binance, coindcx);
    law_offers_are_best_first(o.side, binance, coindcx);
    law_trades_follow_the_offers(o.terms(), lots, start);
    law_trades_are_best_first(o.terms(), lots, start);
}

/// Where no sum is rounded, trying an order again loses nothing: what it has got grows by the
/// quantities of its trades and stays within what was asked for, and the cash changes by as much as
/// the cost of the order grows, down for a buyer and up for a seller.
pub proof fn law_retry_loses_nothing(
    o: OrderInner,
    cash: Decimal,
    h: Seq<(Seq<char>, PositionInner)>,
    binance: OrderBook,
    coindcx: OrderBook,
)
    requires
        o.total_qty.valid(),
        o.filled_qty.valid(),
        o.cost_accum.valid(),
        cash.valid(),
        valid_lots(offers(o.side, binance, coindcx)),
        difference_is_exact(o.total_qty, o.filled_qty),
        retried(o, cash, h, binance, coindcx) is Some,
        walks_exactly(o.terms(), offers(o.side, binance, coindcx), resumed(o, cash, h)),
    ensures
        ({
            let x = retried(o, cash, h, binance, coindcx)->0;
            let paid = x.order.cost_accum.units() - o.cost_accum.units();
            &&& x.order.filled_qty.units() == o.filled_qty.units() + total_units(x.trades)
            &&& o.filled_qty.units() <= o.total_qty.units() ==> x.order.filled_qty.units()
                <= o.total_qty.units()
            &&& o.side == Side::Buy ==> x.tally.cash.units() == cash.units() - paid
            &&& o.side == Side::Sell ==> x.tally.cash.units() == cash.units() + paid
        }),
{
    let start = resumed(o, cash, h);
    lemma_outcomes_valid(o.total_qty, o.filled_qty);
    law_nothing_is_lost(o.terms(), offers(o.side, binance, coindcx), start);
    let x = retried(o, cash, h, binance, coindcx)->0;
    if x.trades.len() == 0 {
        lemma_no_trade(o.terms(), offers(o.side, binance, coindcx), start);
    }
}

/// The cash that a trade for `paid` squared units leaves, in squared units.
pub open spec fn cash_after(side: Side, cash: Decimal, paid: int) -> int {
    match side {
        Side::Buy => cash.units() * one_units() - paid,
        Side::Sell => cash.units() * one_units() + paid,
    }
}

/// The quantity that trades of `qty` units leave of a position.
pub open spec fn position_after(side: Side, held: Option<PositionInner>, qty: int) -> int {
    match side {
        Side::Buy => held_units(held) + qty,
        Side::Sell => held_units(held) - qty,
    }
}

/// Where no sum, no price of a trade and no quantity of the position is rounded, placing an order is
/// paid for: its cost is price times quantity over its trades, the cash changes by as much, and the
/// position by the quantities of the trades.
pub proof fn law_placing_is_settled(
    terms: Terms,
    symbol: Seq<char>,
    quantity: Decimal,
    cash: Decimal,
    h: Seq<(Seq<char>, PositionInner)>,
    binance: OrderBook,
    coindcx: OrderBook,
)
    requires
        quantity.valid(),
        cash.valid(),
        valid_held(held(h, symbol)),
        valid_lots(offers(terms.side, binance, coindcx)),
        placement(terms, symbol, quantity, cash, h, binance, coindcx) is Some,
        pays_exactly(
            terms,
            offers(terms.side, binance, coindcx),
            started(quantity, cash, h, symbol),
        ),
        shifts_exactly(
            terms,
            offers(terms.side, binance, coindcx),
            started(quantity, cash, h, symbol),
        ),
    ensures
        ({
            let (t, trades, status) = placement(
                terms,
                symbol,
                quantity,
                cash,
                h,
                binance,
                coindcx,
            )->0;
            &&& t.cost.units() * one_units() == paid_units(trades)
            &&& t.cash.units() * one_units() == cash_after(terms.side, cash, paid_units(trades))
            &&& held_units(t.held) == position_after(
                terms.side,
                held(h, symbol),
                total_units(trades),
            )
        }),
{
    broadcast use group_decimal;

    let start = started(quantity, cash, h, symbol);
    let lots = offers(terms.side, binance, coindcx);
    lemma_start(quantity);
    law_sign_of_value(zero());
    lemma_outcomes_valid(quantity, zero());
    law_cash_pays_for_the_trades(terms, lots, start);
    law_position_moves_by_the_trades(terms, lots, start);
    assert(0 * one_units() == 0);
}

/// Where no sum, no price of a trade and no quantity of the position is rounded, trying an order
/// again is paid for: its cost grows by price times quantity over its trades, the cash changes by as
/// much, and the position by the quantities of the trades.
pub proof fn law_retry_is_settled(
    o: OrderInner,
    cash: Decimal,
    h: Seq<(Seq<char>, PositionInner)>,
    binance: OrderBook,
    coindcx: OrderBook,
)
    requires
        o.total_qty.valid(),
        o.filled_qty.valid(),
        o.cost_accum.valid(),
        cash.valid(),
        valid_held(held(h, o.symbol@)),
        valid_lots(offers(o.side, binance, coindcx)),
        retried(o, cash, h, binance, coindcx) is Some,
        pays_exactly(o.terms(), offers(o.side, binance, coindcx), resumed(o, cash, h)),
        shifts_exactly(o.terms(), offers(o.side, binance, coindcx), resumed(o, cash, h)),
    ensures
        ({
            let x = retried(o, cash, h, binance, coindcx)->0;
            &&& x.order.cost_accum.units() * one_units() == o.cost_accum.units() * one_units()
                + paid_units(x.trades)
            &&& x.tally.cash.units() * one_units() == cash_after(
                o.side,
                cash,
                paid_units(x.trades),
            )
            &&& held_units(x.tally.held) == position_after(
                o.side,
                held(h, o.symbol@),
                total_units(x.trades),
            )
        }),
{
    let start = resumed(o, cash, h);
    let lots = offers(o.side, binance, coindcx);
    lemma_outcomes_valid(o.total_qty, o.filled_qty);
    law_cash_pays_for_the_trades(o.terms(), lots, start);
    law_position_moves_by_the_trades(o.terms(), lots, start);
    if retried(o, cash, h, binance, coindcx)->0.trades.len() == 0 {
        lemma_no_trade(o.terms(), lots, start);
    }
}

/// Where no sum is rounded, an order that is placed gets all that it asks for, or all that is offered
/// within its limit, whichever is less; and no other choice of that quantity from the offers is
/// cheaper for a buyer or brings more for a seller.
pub proof fn law_placing_gets_the_best(
    terms: Terms,
    symbol: Seq<char>,
    quantity: Decimal,
    cash: Decimal,
    h: Seq<(Seq<char>, PositionInner)>,
    binance: OrderBook,
    coindcx: OrderBook,
    choice: Seq<int>,
)
    requires
        binance.wf(),
        coindcx.wf(),
        quantity.valid(),
        quantity.units() >= 0,
        cash.valid(),
        valid_lots(offers(terms.side, binance, coindcx)),
        positive_lots(offers(terms.side, binance, coindcx)),
        placement(terms, symbol, quantity, cash, h, binance, coindcx) is Some,
        walks_exactly(
            terms,
            offers(terms.side, binance, coindcx),
            started(quantity, cash, h, symbol),
        ),
    ensures
        ({
            let lots = offers(terms.side, binance, coindcx);
            let trades = (placement(terms, symbol, quantity, cash, h, binance, coindcx)->0).1;
            let within = within_units(terms, lots);
            &&& total_units(trades) == if quantity.units() < within {
                quantity.units()
            } else {
                within
            }
            &&& can_choose(lot_amounts(lots), choice) && chosen(choice) == total_units(trades)
                ==> match terms.side {
                Side::Buy => paid_units(trades) <= cost_of_choice(lot_amounts(lots), choice),
                Side::Sell => paid_units(trades) >= cost_of_choice(lot_amounts(lots), choice),
            }
        }),
{
    broadcast use group_decimal;

    let start = started(quantity, cash, h, symbol);
    let lots = offers(terms.side, binance, coindcx);
    lemma_start(quantity);
    law_sign_of_value(quantity);
    law_sign_of_value(zero());
    lemma_outcomes_valid(quantity, zero());
    law_sign_of_value(start.remaining);
    law_offers_are_best_first(terms.side, binance, coindcx);
    law_order_gets_all_it_can(terms, lots, start);
    let trades = (walked(terms, lots, start)->0).1;
    if can_choose(lot_amounts(lots), choice) && chosen(choice) == total_units(trades) {
        law_no_choice_is_better(terms, lots, start, choice);
    }
}

/// Matching looks at neither the cash nor the positions: an order that can be placed on two accounts
/// gets the same trades, quantity, cost and status on both.
pub proof fn law_placing_ignores_the_account(
    terms: Terms,
    quantity: Decimal,
    binance: OrderBook,
    coindcx: OrderBook,
    symbol1: Seq<char>,
    cash1: Decimal,
    h1: Seq<(Seq<char>, PositionInner)>,
    symbol2: Seq<char>,
    cash2: Decimal,
    h2: Seq<(Seq<char>, PositionInner)>,
)
    requires
        placement(terms, symbol1, quantity, cash1, h1, binance, coindcx) is Some,
        placement(terms, symbol2, quantity, cash2, h2, binance, coindcx) is Some,
    ensures
        ({
            let x = placement(terms, symbol1, quantity, cash1, h1, binance, coindcx)->0;
            let y = placement(terms, symbol2, quantity, cash2, h2, binance, coindcx)->0;
            &&& x.1 == y.1
            &&& x.0.filled == y.0.filled
            &&& x.0.cost == y.0.cost
            &&& x.2 == y.2
        }),
{
    lemma_start(quantity);
    law_trades_ignore_the_account(
        terms,
        offers(terms.side, binance, coindcx),
        started(quantity, cash1, h1, symbol1),
        started(quantity, cash2, h2, symbol2),
    );
}

/// Trying an order again looks at neither the cash nor the positions, and so not at the orders that
/// were tried before it: it gets the same trades and stands the same.
pub proof fn law_retry_ignores_the_account(
    o: OrderInner,
    binance: OrderBook,
    coindcx: OrderBook,
    cash1: Decimal,
    h1: Seq<(Seq<char>, PositionInner)>,
    cash2: Decimal,
    h2: Seq<(Seq<char>, PositionInner)>,
)
    requires
        retried(o, cash1, h1, binance, coindcx) is Some,
        retried(o, cash2, h2, binance, coindcx) is Some,
    ensures
        retried(o, cash1, h1, binance, coindcx)->0.trades == retried(
            o,
            cash2,
            h2,
            binance,
            coindcx,
        )->0.trades,
        retried(o, cash1, h1, binance, coindcx)->0.order == retried(
            o,
            cash2,
            h2,
            binance,
            coindcx,
        )->0.order,
{
    law_trades_ignore_the_account(
        o.terms(),
        offers(o.side, binance, coindcx),
        resumed(o, cash1, h1),
        resumed(o, cash2, h2),
    );
}

/// Trying the waiting orders again when none of them trades changes nothing.
pub proof fn law_recheck_without_trades_changes_nothing(
    orders: Seq<OrderInner>,
    cash: Decimal,
    h: Seq<(Seq<char>, PositionInner)>,
    binance: OrderBook,
    coindcx: OrderBook,
)
    requires
        limits_run(orders, cash, h, binance, coindcx) matches Some(s) && s.matched.len() == 0,
    ensures
        limits_run(orders, cash, h, binance, coindcx)->0.cash == cash,
        limits_run(orders, cash, h, binance, coindcx)->0.holds == h,
        limits_run(orders, cash, h, binance, coindcx)->0.waiting == orders,
    decreases orders.len(),
{
    if orders.len() > 0 {
        let rest = orders.drop_last();
        let o = orders.last();
        let s = limits_run(rest, cash, h, binance, coindcx)->0;
        let x = retried(o, s.cash, s.holds, binance, coindcx)->0;
        law_recheck_without_trades_changes_nothing(rest, cash, h, binance, coindcx);
        lemma_hold_again(h, o.symbol@);
        assert(rest.push(o) =~= orders);
    } else {
        assert(orders =~= Seq::empty());
    }
}

/// Whether two orders are the same order, at different times of its life.
pub open spec fn same_order(a: OrderInner, b: OrderInner) -> bool {
    &&& a.id == b.id
    &&& a.symbol == b.symbol
    &&& a.terms() == b.terms()
    &&& a.total_qty == b.total_qty
    &&& a.created_at == b.created_at
}

/// Whether every order of one list is, unchanged but for what it got, an order of another.
pub open spec fn come_from(later: Seq<OrderInner>, earlier: Seq<OrderInner>) -> bool {
    forall|i: int|
        0 <= i < later.len() ==> exists|j: int|
            0 <= j < earlier.len() && same_order(#[trigger] later[i], #[trigger] earlier[j])
}

/// Trying the waiting orders again makes up no orders: each that waits on or is reported was waiting
/// before, under the same id and on the same terms, and each that waits on can wait.
pub proof fn law_recheck_makes_no_orders(
    orders: Seq<OrderInner>,
    cash: Decimal,
    h: Seq<(Seq<char>, PositionInner)>,
    binance: OrderBook,
    coindcx: OrderBook,
)
    requires
        forall|i: int| 0 <= i < orders.len() ==> can_wait(#[trigger] orders[i]),
        limits_run(orders, cash, h, binance, coindcx) is Some,
    ensures
        ({
            let s = limits_run(orders, cash, h, binance, coindcx)->0;
            &&& come_from(s.waiting, orders)
            &&& come_from(s.matched.map_values(|m: (OrderInner, Seq<Lot>)| m.0), orders)
            &&& forall|i: int| 0 <= i < s.waiting.len() ==> can_wait(#[trigger] s.waiting[i])
            &&& s.waiting.len() <= orders.len()
        }),
    decreases orders.len(),
{
    if orders.len() > 0 {
        let rest = orders.drop_last();
        let n = orders.len() - 1;
        let o = orders[n];
        assert forall|i: int| 0 <= i < rest.len() implies can_wait(#[trigger] rest[i]) by {
            assert(rest[i] == orders[i]);
        }
        law_recheck_makes_no_orders(rest, cash, h, binance, coindcx);
        let s = limits_run(rest, cash, h, binance, coindcx)->0;
        let x = retried(o, s.cash, s.holds, binance, coindcx)->0;
        let e = after_retry(s, x);
        assert(same_order(x.order, o));
        assert(can_wait(o));
        assert forall|i: int| 0 <= i < e.waiting.len() implies exists|j: int|
            0 <= j < orders.len() && same_order(#[trigger] e.waiting[i], #[trigger] orders[j]) by {
            if i < s.waiting.len() {
                let j = choose|j: int|
                    0 <= j < rest.len() && same_order(s.waiting[i], #[trigger] rest[j]);
                assert(e.waiting[i] == s.waiting[i]);
                assert(orders[j] == rest[j]);
            } else {
                assert(same_order(e.waiting[i], orders[n]));
            }
        }
        let f = |m: (OrderInner, Seq<Lot>)| m.0;
        let (sm, em) = (s.matched.map_values(f), e.matched.map_values(f));
        assert forall|i: int| 0 <= i < em.len() implies exists|j: int|
            0 <= j < orders.len() && same_order(#[trigger] em[i], #[trigger] orders[j]) by {
            if i < sm.len() {
                assert(em[i] == sm[i]);
                let j = choose|j: int| 0 <= j < rest.len() && same_order(sm[i], #[trigger] rest[j]);
                assert(orders[j] == rest[j]);
            } else {
                assert(same_order(em[i], orders[n]));
            }
        }
        assert forall|i: int| 0 <= i < e.waiting.len() implies can_wait(
            #[trigger] e.waiting[i],
        ) by {
            if i < s.waiting.len() {
                assert(e.waiting[i] == s.waiting[i]);
            }
        }
    }
}

/// Whether no two orders share an id.
pub open spec fn distinct_ids(orders: Seq<OrderInner>) -> bool {
    forall|i: int, j: int|
        0 <= i < j < orders.len() ==> (#[trigger] orders[i]).id@ != (#[trigger] orders[j]).id@
}

proof fn lemma_id_gone(w: Seq<OrderInner>, i: int, k: int)
    requires
        distinct_ids(w),
        0 <= i < w.len(),
        0 <= k < w.remove(i).len(),
    ensures
        w.remove(i)[k].id@ != w[i].id@,
{
    let j = if k < i { k } else { k + 1 };
    assert(w.remove(i)[k] == w[j]);
}

/// Where the waiting orders have different ids, an order that was taken back cannot be taken back
/// again: the second attempt finds nothing and changes nothing.
pub proof fn law_cancel_once(
    a: TradingState,
    b: TradingState,
    c: TradingState,
    first: Order,
    second: Option<Order>,
    id: Seq<char>,
    t1: u64,
    t2: u64,
)
    requires
        distinct_ids(a.waiting()),
        is_cancelled(a, b, Some(first), id, t1),
        is_cancelled(b, c, second, id, t2),
    ensures
        second is None,
        c == b,
        first.status == OrderStatus::Cancelled,
        b.waiting().len() == a.waiting().len() - 1,
{
    let i = choose|i: int| takes_back(a.waiting(), b.waiting(), first, id, t1, i);
    if let Some(order) = second {
        let k = choose|k: int| takes_back(b.waiting(), c.waiting(), order, id, t2, k);
        lemma_id_gone(a.waiting(), i, k);
    }
}

} // verus!
