//! What placing an order, trying one again and taking one back come to, in terms of orders, trades and
//! texts.

use crate::account_laws::{valid_holds, valid_order, valid_orders};
use crate::book::OrderBook;
use crate::decimal::{
    abs_int, difference, difference_is_exact, dividend, in_reach, is_rounded,
    law_difference_is_rounded, law_quotient_is_rounded, law_sign_of_value, lemma_outcomes_valid,
    quotient, short_text, zero, Decimal,
};
use crate::execution::{
    law_no_choice_is_better, law_offers_are_best_first, law_order_gets_all_it_can, lot_amounts,
    offers, paid_units, positive_lots, total_units, valid_held, valid_lots, valid_tally, walked,
    walks_exactly, within_units, Lot, OrderType, Side, Tally, Terms, Venue,
};
use crate::ids::is_random_uuid;
use crate::matching::{
    all_shown, average, fill_shows, fills_show, is_cancelled, is_placed, placed_order, placement,
    retried, shows, takes_back, Fill, MatchResult, Order, OrderInner, OrderStatus, TradingState,
};
use crate::position::{
    distinct_symbols, held, held_at, is_held, law_held_after_setting, valid_position, with_held,
    PositionInner,
};
use crate::rounding::{lemma_rounded_sign, lemma_zero_in_reach};
use crate::trading_laws::{lemma_no_trade, lemma_start, resumed, started};
use crate::walk_laws::{
    is_walk, law_order_fails_only_by_overflow, law_order_trades_lot_by_lot, walk_overflows,
};
use crate::wants::{can_choose, chosen, cost_of_choice};
use vstd::prelude::*;

verus! {

/// Whether a list of positions has the given one for a symbol, or none.
pub open spec fn reads_position(
    h: Seq<(Seq<char>, PositionInner)>,
    symbol: Seq<char>,
    p: Option<PositionInner>,
) -> bool {
    match p {
        Some(x) => exists|i: int| 0 <= i < h.len() && #[trigger] h[i] == (symbol, x),
        None => forall|i: int| 0 <= i < h.len() ==> (#[trigger] h[i]).0 != symbol,
    }
}

/// What is held of a symbol is what the list has for it.
pub proof fn law_held_is_read(h: Seq<(Seq<char>, PositionInner)>, symbol: Seq<char>)
    ensures
        reads_position(h, symbol, held(h, symbol)),
        forall|p: Option<PositionInner>|
            distinct_symbols(h) && #[trigger] reads_position(h, symbol, p) ==> p == held(h, symbol),
{
    if is_held(h, symbol) {
        assert(h[held_at(h, symbol)] == (symbol, held(h, symbol)->0));
    }
    assert forall|p: Option<PositionInner>|
        distinct_symbols(h) && #[trigger] reads_position(h, symbol, p) implies p == held(
        h,
        symbol,
    ) by {
        if let Some(x) = p {
            let i = choose|i: int| 0 <= i < h.len() && #[trigger] h[i] == (symbol, x);
            assert(is_held(h, symbol));
            let j = held_at(h, symbol);
            if i < j {
                assert(h[i].0 != h[j].0);
            }
            if j < i {
                assert(h[j].0 != h[i].0);
            }
        }
    }
}

/// Setting what is held of a symbol is read back, and every other symbol stays as it was. Setting
/// nothing changes nothing.
pub proof fn law_setting_a_position_is_read_back(
    h: Seq<(Seq<char>, PositionInner)>,
    symbol: Seq<char>,
    p: Option<PositionInner>,
    other: Seq<char>,
)
    requires
        distinct_symbols(h),
    ensures
        distinct_symbols(with_held(h, symbol, p)),
        p is Some ==> reads_position(with_held(h, symbol, p), symbol, p),
        p is None ==> with_held(h, symbol, p) == h,
        other != symbol ==> reads_position(with_held(h, symbol, p), other, held(h, other)),
{
    law_held_is_read(h, other);
    if let Some(x) = p {
        law_held_after_setting(h, symbol, x, other);
        law_held_is_read(with_held(h, symbol, p), symbol);
        law_held_is_read(with_held(h, symbol, p), other);
    }
}

/// Whether a text that may be missing is the short text of a decimal that may be missing.
pub open spec fn tells(text: Option<String>, d: Option<Decimal>) -> bool {
    match d {
        Some(d) => text matches Some(s) && s@ == short_text(d),
        None => text is None,
    }
}

/// Whether an order is shown as it stands: all that it was placed with, what it has got, how it is
/// doing, and the average price of what it has got, which is its cost divided by that.
pub open spec fn is_shown(api: Order, o: OrderInner, now: u64) -> bool {
    &&& api.id@ == o.id@
    &&& api.side == o.side
    &&& api.order_type == o.order_type
    &&& api.symbol@ == o.symbol@
    &&& tells(api.price, o.limit_price)
    &&& api.quantity@ == short_text(o.total_qty)
    &&& api.filled_qty@ == short_text(o.filled_qty)
    &&& if o.filled_qty.units() == 0 {
        api.avg_fill_price is None
    } else {
        exists|a: Decimal| #[trigger]
            is_rounded(a, dividend(o.cost_accum, o.filled_qty), abs_int(o.filled_qty.units()))
                && tells(api.avg_fill_price, Some(a))
    }
    &&& api.status == o.status
    &&& api.created_at == o.created_at
    &&& api.updated_at == now
}

/// An order is shown as it stands.
pub proof fn law_order_is_shown_as_it_stands(api: Order, o: OrderInner, now: u64)
    requires
        shows(api, o, now),
        o.filled_qty.valid(),
        o.cost_accum.valid(),
    ensures
        is_shown(api, o, now),
{
    law_sign_of_value(o.filled_qty);
    if o.filled_qty.units() != 0 {
        law_quotient_is_rounded(o.cost_accum, o.filled_qty);
        let a = quotient(o.cost_accum, o.filled_qty)->0;
        assert(is_rounded(
            a,
            dividend(o.cost_accum, o.filled_qty),
            abs_int(o.filled_qty.units()),
        ));
    }
}

/// The waiting orders are shown one by one and in their order, each as it stands.
pub proof fn law_waiting_orders_are_shown(
    shown: Seq<Order>,
    orders: Seq<OrderInner>,
    now: u64,
)
    requires
        all_shown(shown, orders, now),
        valid_orders(orders),
    ensures
        shown.len() == orders.len(),
        forall|i: int|
            0 <= i < shown.len() ==> is_shown(#[trigger] shown[i], orders[i], now),
{
    assert forall|i: int| 0 <= i < shown.len() implies is_shown(
        #[trigger] shown[i],
        orders[i],
        now,
    ) by {
        assert(shows(shown[i], orders[i], now));
        assert(valid_order(orders[i]));
        law_order_is_shown_as_it_stands(shown[i], orders[i], now);
    }
}

/// Whether a fill tells of a trade: its price, its quantity and its venue, for which order and when.
pub open spec fn tells_trade(
    fill: Fill,
    trade: Lot,
    order_id: Seq<char>,
    side: Side,
    now: u64,
) -> bool {
    &&& fill.order_id@ == order_id
    &&& fill.side == side
    &&& fill.price@ == short_text(trade.price)
    &&& fill.quantity@ == short_text(trade.qty)
    &&& trade.venue == Venue::Binance ==> fill.exchange@ == "binance"@
    &&& trade.venue == Venue::Coindcx ==> fill.exchange@ == "coindcx"@
    &&& fill.ts_ms == now
}

/// Whether fills tell of trades, one each and in their order, under ids of their own.
pub open spec fn tell_trades(
    fills: Seq<Fill>,
    trades: Seq<Lot>,
    order_id: Seq<char>,
    side: Side,
    now: u64,
) -> bool {
    &&& fills.len() == trades.len()
    &&& forall|i: int|
        0 <= i < fills.len() ==> tells_trade(#[trigger] fills[i], trades[i], order_id, side, now)
    &&& forall|i: int| 0 <= i < fills.len() ==> is_random_uuid((#[trigger] fills[i]).id@)
}

/// The fills of an order tell of its trades.
pub proof fn law_fills_tell_of_the_trades(
    fills: Seq<Fill>,
    trades: Seq<Lot>,
    order_id: Seq<char>,
    side: Side,
    now: u64,
)
    requires
        fills_show(fills, trades, order_id, side, now),
    ensures
        tell_trades(fills, trades, order_id, side, now),
{
    assert forall|i: int| 0 <= i < fills.len() implies tells_trade(
        #[trigger] fills[i],
        trades[i],
        order_id,
        side,
        now,
    ) && is_random_uuid(fills[i].id@) by {
        assert(fill_shows(fills[i], trades[i], order_id, side, now));
    }
}

/// What an order starts from: it wants what of its quantity it has not got.
pub open spec fn is_start(
    start: Tally,
    total: Decimal,
    filled: Decimal,
    cost: Decimal,
    cash: Decimal,
    h: Seq<(Seq<char>, PositionInner)>,
    symbol: Seq<char>,
) -> bool {
    &&& is_rounded(start.remaining, total.units() - filled.units(), 1)
    &&& start.filled == filled
    &&& start.cost == cost
    &&& start.cash == cash
    &&& reads_position(h, symbol, start.held)
}

/// How an order stands that has just gone through its offers: filled where it has got all that it
/// asks for, and so is a market order that has got something; a market order that has got nothing is
/// cancelled; any other order waits, open or filled in part.
pub open spec fn is_status(
    order_type: OrderType,
    wanted: int,
    got: int,
    status: OrderStatus,
) -> bool {
    &&& got == wanted ==> status == OrderStatus::Filled
    &&& got != wanted && order_type == OrderType::Market && got > 0 ==> status
        == OrderStatus::Filled
    &&& got != wanted && order_type == OrderType::Market && got <= 0 ==> status
        == OrderStatus::Cancelled
    &&& got != wanted && order_type == OrderType::Limit && got > 0 ==> status
        == OrderStatus::PartiallyFilled
    &&& got != wanted && order_type == OrderType::Limit && got <= 0 ==> status == OrderStatus::Open
}

/// What placing an order comes to, with the account that it ends with, its trades and its order.
///
/// The order goes through what the two books offer to its side. Its trades are told of in the fills,
/// which join the log. The cash and the position of its symbol are those that it ends with. It is
/// shown as it stands, and joins the waiting orders where it waits and the history where it does not.
pub open spec fn comes_to(
    before: TradingState,
    after: TradingState,
    r: MatchResult,
    lots: Seq<Lot>,
    start: Tally,
    end: Tally,
    trades: Seq<Lot>,
    o: OrderInner,
    now: u64,
) -> bool {
    let terms = Terms { side: o.side, order_type: o.order_type, limit: o.limit_price };
    let waits = o.status == OrderStatus::Open || o.status == OrderStatus::PartiallyFilled;
    &&& is_start(start, o.total_qty, zero(), zero(), before.cash(), before.holds(), o.symbol@)
    &&& is_walk(terms, lots, start, end, trades)
    &&& o.filled_qty == end.filled
    &&& o.cost_accum == end.cost
    &&& is_status(o.order_type, o.total_qty.units(), o.filled_qty.units(), o.status)
    &&& o.created_at == now
    &&& is_random_uuid(o.id@)
    &&& is_shown(r.order, o, now)
    &&& tell_trades(r.new_fills@, trades, o.id@, o.side, now)
    &&& after.fill_log() == before.fill_log() + r.new_fills@
    &&& after.cash() == end.cash
    &&& end.held is Some ==> reads_position(after.holds(), o.symbol@, end.held)
    &&& end.held is None ==> after.holds() == before.holds()
    &&& after.waiting() == if waits {
        before.waiting().push(o)
    } else {
        before.waiting()
    }
    &&& after.history() == if waits {
        before.history()
    } else {
        before.history().push(r.order)
    }
}

/// Placing an order lets it go through what the books offer to its side, trade by trade, and comes to
/// just that. Positions of other symbols stay as they were.
pub proof fn law_placing_an_order(
    before: TradingState,
    after: TradingState,
    r: MatchResult,
    terms: Terms,
    symbol: String,
    quantity: Decimal,
    binance: OrderBook,
    coindcx: OrderBook,
    now: u64,
    other: Seq<char>,
)
    requires
        is_placed(before, after, r, terms, symbol, quantity, binance, coindcx, now),
        before.wf(),
        quantity.valid(),
        before.cash().valid(),
        valid_holds(before.holds()),
        valid_lots(offers(terms.side, binance, coindcx)),
    ensures
        exists|start: Tally, end: Tally, trades: Seq<Lot>, o: OrderInner|
            {
                &&& #[trigger] comes_to(
                    before,
                    after,
                    r,
                    offers(terms.side, binance, coindcx),
                    start,
                    end,
                    trades,
                    o,
                    now,
                )
                &&& o.id == r.order.id
                &&& o.side == terms.side
                &&& o.order_type == terms.order_type
                &&& o.limit_price == terms.limit
                &&& o.symbol == symbol
                &&& o.total_qty == quantity
            },
        other != symbol@ ==> reads_position(after.holds(), other, held(before.holds(), other)),
{
    let h = before.holds();
    let lots = offers(terms.side, binance, coindcx);
    let start = started(quantity, before.cash(), h, symbol@);
    let (end, trades, status) = placement(
        terms,
        symbol@,
        quantity,
        before.cash(),
        h,
        binance,
        coindcx,
    )->0;
    lemma_begun(quantity, before.cash(), h, symbol@);
    law_order_trades_lot_by_lot(terms, lots, start);
    law_sign_of_value(end.filled);
    law_difference_is_rounded(quantity, end.filled);
    lemma_rounded_sign(difference(quantity, end.filled)->0, quantity.units() - end.filled.units());
    let o = placed_order(r.order.id, terms, symbol, quantity, end, status, now);
    law_order_is_shown_as_it_stands(r.order, o, now);
    law_fills_tell_of_the_trades(r.new_fills@, trades, o.id@, terms.side, now);
    law_setting_a_position_is_read_back(h, symbol@, end.held, other);
    assert(Terms { side: o.side, order_type: o.order_type, limit: o.limit_price } == terms);
    assert(comes_to(before, after, r, lots, start, end, trades, o, now));
}

/// What an order that is about to be placed starts from.
proof fn lemma_begun(
    quantity: Decimal,
    cash: Decimal,
    h: Seq<(Seq<char>, PositionInner)>,
    symbol: Seq<char>,
)
    requires
        quantity.valid(),
        cash.valid(),
        valid_holds(h),
    ensures
        is_start(
            started(quantity, cash, h, symbol),
            quantity,
            zero(),
            zero(),
            cash,
            h,
            symbol,
        ),
        valid_tally(started(quantity, cash, h, symbol)),
        valid_held(held(h, symbol)),
        difference(quantity, zero()) is Some,
{
    lemma_start(quantity);
    lemma_zero_in_reach();
    law_difference_is_rounded(quantity, zero());
    law_held_is_read(h, symbol);
    lemma_held_valid(h, symbol);
}

proof fn lemma_held_valid(h: Seq<(Seq<char>, PositionInner)>, symbol: Seq<char>)
    requires
        valid_holds(h),
    ensures
        valid_held(held(h, symbol)),
{
    if is_held(h, symbol) {
        assert(valid_position(h[held_at(h, symbol)].1));
    }
}

/// Whether what an order has got, or the average price of it, cannot be shown.
pub open spec fn showing_overflows(total: Decimal, end: Tally) -> bool {
    ||| !in_reach(total.units() - end.filled.units(), 1)
    ||| end.filled.units() != 0 && !in_reach(
        dividend(end.cost, end.filled),
        abs_int(end.filled.units()),
    )
}

/// Whether an order cannot go through its offers, or cannot be shown after it has, without leaving
/// what decimals can hold.
pub open spec fn attempt_overflows(
    terms: Terms,
    lots: Seq<Lot>,
    start: Tally,
    total: Decimal,
) -> bool {
    ||| walk_overflows(terms, lots, start)
    ||| exists|end: Tally, trades: Seq<Lot>| #[trigger]
        is_walk(terms, lots, start, end, trades) && showing_overflows(total, end)
}

/// An order can be placed unless some amount that it needs leaves what decimals can hold.
pub proof fn law_placing_fails_only_by_overflow(
    terms: Terms,
    symbol: Seq<char>,
    quantity: Decimal,
    cash: Decimal,
    h: Seq<(Seq<char>, PositionInner)>,
    binance: OrderBook,
    coindcx: OrderBook,
)
    requires
        quantity.valid(),
        cash.valid(),
        valid_holds(h),
        valid_lots(offers(terms.side, binance, coindcx)),
        placement(terms, symbol, quantity, cash, h, binance, coindcx) is None,
    ensures
        exists|start: Tally| #[trigger]
            is_start(start, quantity, zero(), zero(), cash, h, symbol) && attempt_overflows(
                terms,
                offers(terms.side, binance, coindcx),
                start,
                quantity,
            ),
{
    let lots = offers(terms.side, binance, coindcx);
    let start = started(quantity, cash, h, symbol);
    lemma_begun(quantity, cash, h, symbol);
    lemma_attempt_fails(terms, lots, start, quantity);
    assert(is_start(start, quantity, zero(), zero(), cash, h, symbol));
}

proof fn lemma_attempt_fails(terms: Terms, lots: Seq<Lot>, start: Tally, total: Decimal)
    requires
        valid_tally(start),
        valid_held(start.held),
        valid_lots(lots),
        total.valid(),
        walked(terms, lots, start) matches Some((end, _)) ==> difference(total, end.filled) is None
            || average(end.cost, end.filled) is None,
    ensures
        attempt_overflows(terms, lots, start, total),
{
    match walked(terms, lots, start) {
        None => {
            law_order_fails_only_by_overflow(terms, lots, start);
        },
        Some((end, trades)) => {
            law_order_trades_lot_by_lot(terms, lots, start);
            law_difference_is_rounded(total, end.filled);
            law_sign_of_value(end.filled);
            if end.filled.units() != 0 {
                law_quotient_is_rounded(end.cost, end.filled);
            }
            assert(is_walk(terms, lots, start, end, trades));
        },
    }
}

/// A waiting order that is tried again goes through what the books offer to its side for what it
/// still wants. Without a trade it stays as it is, and so does the account. With trades it has got
/// them and paid for them, and is filled where it has got all that it asks for, and filled in part
/// otherwise. Nothing else about it changes.
pub proof fn law_trying_an_order_again(
    o: OrderInner,
    cash: Decimal,
    h: Seq<(Seq<char>, PositionInner)>,
    binance: OrderBook,
    coindcx: OrderBook,
)
    requires
        valid_order(o),
        cash.valid(),
        valid_holds(h),
        valid_lots(offers(o.side, binance, coindcx)),
        retried(o, cash, h, binance, coindcx) is Some,
    ensures
        ({
            let x = retried(o, cash, h, binance, coindcx)->0;
            let terms = Terms { side: o.side, order_type: o.order_type, limit: o.limit_price };
            &&& exists|start: Tally|
                {
                    &&& #[trigger] is_start(
                        start,
                        o.total_qty,
                        o.filled_qty,
                        o.cost_accum,
                        cash,
                        h,
                        o.symbol@,
                    )
                    &&& is_walk(
                        terms,
                        offers(o.side, binance, coindcx),
                        start,
                        x.tally,
                        x.trades,
                    )
                }
            &&& x.trades.len() == 0 ==> x.order == o && x.tally.cash == cash && reads_position(
                h,
                o.symbol@,
                x.tally.held,
            )
            &&& x.trades.len() > 0 ==> {
                &&& x.order.filled_qty == x.tally.filled
                &&& x.order.cost_accum == x.tally.cost
                &&& x.tally.filled.units() == o.total_qty.units() ==> x.order.status
                    == OrderStatus::Filled
                &&& x.tally.filled.units() != o.total_qty.units() ==> x.order.status
                    == OrderStatus::PartiallyFilled
            }
            &&& x.order.id == o.id
            &&& x.order.symbol == o.symbol
            &&& x.order.side == o.side
            &&& x.order.order_type == o.order_type
            &&& x.order.limit_price == o.limit_price
            &&& x.order.total_qty == o.total_qty
            &&& x.order.created_at == o.created_at
        }),
{
    let x = retried(o, cash, h, binance, coindcx)->0;
    let lots = offers(o.side, binance, coindcx);
    let start = resumed(o, cash, h);
    law_difference_is_rounded(o.total_qty, o.filled_qty);
    law_held_is_read(h, o.symbol@);
    lemma_held_valid(h, o.symbol@);
    law_order_trades_lot_by_lot(o.terms(), lots, start);
    assert(is_start(start, o.total_qty, o.filled_qty, o.cost_accum, cash, h, o.symbol@));
    if x.trades.len() == 0 {
        lemma_no_trade(o.terms(), lots, start);
    } else {
        law_difference_is_rounded(o.total_qty, x.tally.filled);
        lemma_rounded_sign(
            difference(o.total_qty, x.tally.filled)->0,
            o.total_qty.units() - x.tally.filled.units(),
        );
    }
}

/// A waiting order can be tried again unless some amount that it needs leaves what decimals can hold.
pub proof fn law_trying_again_fails_only_by_overflow(
    o: OrderInner,
    cash: Decimal,
    h: Seq<(Seq<char>, PositionInner)>,
    binance: OrderBook,
    coindcx: OrderBook,
)
    requires
        valid_order(o),
        cash.valid(),
        valid_holds(h),
        valid_lots(offers(o.side, binance, coindcx)),
        retried(o, cash, h, binance, coindcx) is None,
    ensures
        !in_reach(o.total_qty.units() - o.filled_qty.units(), 1) || exists|start: Tally|
            {
                &&& #[trigger] is_start(
                    start,
                    o.total_qty,
                    o.filled_qty,
                    o.cost_accum,
                    cash,
                    h,
                    o.symbol@,
                )
                &&& attempt_overflows(
                    Terms { side: o.side, order_type: o.order_type, limit: o.limit_price },
                    offers(o.side, binance, coindcx),
                    start,
                    o.total_qty,
                )
            },
{
    let lots = offers(o.side, binance, coindcx);
    law_difference_is_rounded(o.total_qty, o.filled_qty);
    if o.rest() is Some {
        let start = resumed(o, cash, h);
        law_held_is_read(h, o.symbol@);
        lemma_held_valid(h, o.symbol@);
        lemma_attempt_fails(o.terms(), lots, start, o.total_qty);
        assert(is_start(start, o.total_qty, o.filled_qty, o.cost_accum, cash, h, o.symbol@));
    }
}

/// Where no sum is rounded, an order that is tried again gets all that it still wants, or all that is
/// offered within its limit, whichever is less; and no other choice of that quantity from the offers
/// is cheaper for a buyer or brings more for a seller.
pub proof fn law_retry_gets_the_best(
    o: OrderInner,
    cash: Decimal,
    h: Seq<(Seq<char>, PositionInner)>,
    binance: OrderBook,
    coindcx: OrderBook,
    choice: Seq<int>,
)
    requires
        binance.wf(),
        coindcx.wf(),
        valid_order(o),
        o.filled_qty.units() <= o.total_qty.units(),
        difference_is_exact(o.total_qty, o.filled_qty),
        cash.valid(),
        valid_lots(offers(o.side, binance, coindcx)),
        positive_lots(offers(o.side, binance, coindcx)),
        retried(o, cash, h, binance, coindcx) is Some,
        walks_exactly(o.terms(), offers(o.side, binance, coindcx), resumed(o, cash, h)),
    ensures
        ({
            let lots = offers(o.side, binance, coindcx);
            let trades = retried(o, cash, h, binance, coindcx)->0.trades;
            let within = within_units(o.terms(), lots);
            let wanted = o.total_qty.units() - o.filled_qty.units();
            &&& total_units(trades) == if wanted < within {
                wanted
            } else {
                within
            }
            &&& can_choose(lot_amounts(lots), choice) && chosen(choice) == total_units(trades)
                ==> match o.side {
                Side::Buy => paid_units(trades) <= cost_of_choice(lot_amounts(lots), choice),
                Side::Sell => paid_units(trades) >= cost_of_choice(lot_amounts(lots), choice),
            }
        }),
{
    let lots = offers(o.side, binance, coindcx);
    let start = resumed(o, cash, h);
    lemma_outcomes_valid(o.total_qty, o.filled_qty);
    law_offers_are_best_first(o.side, binance, coindcx);
    law_order_gets_all_it_can(o.terms(), lots, start);
    let trades = (walked(o.terms(), lots, start)->0).1;
    if can_choose(lot_amounts(lots), choice) && chosen(choice) == total_units(trades) {
        law_no_choice_is_better(o.terms(), lots, start, choice);
    }
}

/// An order can be taken back exactly where an order with its id waits. The first that does then
/// waits no more, is shown as cancelled and otherwise as it stands, and ends the history. Nothing else
/// changes.
pub proof fn law_taking_an_order_back(
    before: TradingState,
    after: TradingState,
    r: Option<Order>,
    id: Seq<char>,
    now: u64,
    i: int,
)
    requires
        is_cancelled(before, after, r, id, now),
        forall|j: int| 0 <= j < i ==> (#[trigger] before.waiting()[j]).id@ != id,
        0 <= i <= before.waiting().len(),
    ensures
        i == before.waiting().len() ==> r is None && after == before,
        i < before.waiting().len() && before.waiting()[i].id@ == id ==> {
            let o = before.waiting()[i];
            &&& r is Some
            &&& after.waiting() == before.waiting().remove(i)
            &&& after.history() == before.history().push(r->0)
            &&& after.cash() == before.cash()
            &&& after.holds() == before.holds()
            &&& after.fill_log() == before.fill_log()
            &&& o.filled_qty.valid() && o.cost_accum.valid() ==> is_shown(
                r->0,
                OrderInner { status: OrderStatus::Cancelled, ..o },
                now,
            )
        },
{
    let w = before.waiting();
    if let Some(order) = r {
        let k = choose|k: int| takes_back(w, after.waiting(), order, id, now, k);
        if i < w.len() && w[i].id@ == id {
            assert(k == i) by {
                if i < k {
                    assert(w[i].id@ != id);
                }
            }
            let o = OrderInner { status: OrderStatus::Cancelled, ..w[i] };
            if w[i].filled_qty.valid() && w[i].cost_accum.valid() {
                law_order_is_shown_as_it_stands(order, o, now);
            }
        }
    }
}

} // verus!
