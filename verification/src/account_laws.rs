//! What holds of the account over any series of calls where nothing is rounded.

use crate::book::OrderBook;
use crate::call_laws::{is_call, is_run, lemma_run_before, Call};
use crate::decimal::{
    difference_is_exact, group_decimal, law_sign_of_value, lemma_outcomes_valid, one_units,
    sum_is_exact, zero, Decimal,
};
use crate::execution::{
    law_nothing_is_lost, law_trades_are_positive, law_trading_keeps_the_balance, offers,
    positive_lots, sunk_in, trades_exactly, valid_held, valid_lots, walks_exactly, OrderType, Side,
};
use crate::matching::{
    after_retry, can_wait, limits_run, open_positions, placement, retried, takes_back,
    total_realized, LimitsRun, OrderInner, OrderStatus, TradingState,
};
use crate::position::{
    distinct_symbols, held, held_at, is_held, sunk, valid_position, with_held, PositionInner,
};
use crate::trading_laws::{lemma_no_trade, lemma_start, resumed, started};
use vstd::prelude::*;

verus! {

/// Whether the decimals of positions are decimals.
pub open spec fn valid_holds(h: Seq<(Seq<char>, PositionInner)>) -> bool {
    forall|i: int| 0 <= i < h.len() ==> valid_position((#[trigger] h[i]).1)
}

/// Whether the decimals of an order are decimals.
pub open spec fn valid_order(o: OrderInner) -> bool {
    o.total_qty.valid() && o.filled_qty.valid() && o.cost_accum.valid()
}

/// Whether the decimals of orders are decimals.
pub open spec fn valid_orders(orders: Seq<OrderInner>) -> bool {
    forall|i: int| 0 <= i < orders.len() ==> valid_order(#[trigger] orders[i])
}

/// Whether the decimals of an account are decimals.
pub open spec fn valid_account(st: TradingState) -> bool {
    st.cash().valid() && valid_holds(st.holds()) && valid_orders(st.waiting())
}

/// Whether the decimals of what two books offer are decimals.
pub open spec fn valid_books(binance: OrderBook, coindcx: OrderBook) -> bool {
    valid_lots(offers(Side::Buy, binance, coindcx)) && valid_lots(
        offers(Side::Sell, binance, coindcx),
    )
}

/// Whether the decimals of a call are decimals.
pub open spec fn valid_call(call: Call) -> bool {
    match call {
        Call::Place { quantity, binance, coindcx, .. } => quantity.valid() && valid_books(
            binance,
            coindcx,
        ),
        Call::Recheck { binance, coindcx, .. } => valid_books(binance, coindcx),
        Call::Cancel { .. } => true,
    }
}

/// What all positions have cost and not yet earned back, in squared units.
pub open spec fn total_sunk(h: Seq<(Seq<char>, PositionInner)>) -> int
    decreases h.len(),
{
    if h.len() == 0 {
        0
    } else {
        total_sunk(h.drop_last()) + sunk(h.last().1)
    }
}

/// Cash, together with the cost of what is held, less what was earned, in squared units.
pub open spec fn balance_of(cash: Decimal, h: Seq<(Seq<char>, PositionInner)>) -> int {
    cash.units() * one_units() + total_sunk(h)
}

/// The balance of an account.
pub open spec fn account_balance(st: TradingState) -> int {
    balance_of(st.cash(), st.holds())
}

/// Whether trying orders again rounds nothing.
pub open spec fn rechecks_exactly(
    orders: Seq<OrderInner>,
    cash: Decimal,
    h: Seq<(Seq<char>, PositionInner)>,
    binance: OrderBook,
    coindcx: OrderBook,
) -> bool
    decreases orders.len(),
{
    orders.len() == 0 || {
        let o = orders.last();
        &&& rechecks_exactly(orders.drop_last(), cash, h, binance, coindcx)
        &&& limits_run(orders.drop_last(), cash, h, binance, coindcx) matches Some(s)
            ==> trades_exactly(
            o.terms(),
            offers(o.side, binance, coindcx),
            resumed(o, s.cash, s.holds),
        )
    }
}

/// Whether a call rounds nothing, in sums, prices of trades and positions.
pub open spec fn settles(before: TradingState, call: Call) -> bool {
    match call {
        Call::Place { terms, symbol, quantity, binance, coindcx, .. } => trades_exactly(
            terms,
            offers(terms.side, binance, coindcx),
            started(quantity, before.cash(), before.holds(), symbol@),
        ),
        Call::Recheck { binance, coindcx, .. } => rechecks_exactly(
            before.waiting(),
            before.cash(),
            before.holds(),
            binance,
            coindcx,
        ),
        Call::Cancel { .. } => true,
    }
}

/// Setting a position changes the sum by the difference.
proof fn lemma_sunk_with(
    h: Seq<(Seq<char>, PositionInner)>,
    symbol: Seq<char>,
    position: Option<PositionInner>,
)
    requires
        valid_holds(h),
        valid_held(position),
        is_held(h, symbol) ==> position is Some,
    ensures
        total_sunk(with_held(h, symbol, position)) == total_sunk(h) - sunk_in(held(h, symbol))
            + sunk_in(position),
        valid_holds(with_held(h, symbol, position)),
        valid_held(held(h, symbol)),
{
    if let Some(p) = position {
        let w = with_held(h, symbol, position);
        if is_held(h, symbol) {
            let i = held_at(h, symbol);
            lemma_sunk_update(h, i, (symbol, p));
            assert(valid_position(h[i].1));
            assert forall|j: int| 0 <= j < w.len() implies valid_position((#[trigger] w[j]).1) by {
                if j != i {
                    assert(w[j] == h[j]);
                }
            }
        } else {
            assert(w.drop_last() =~= h);
            assert forall|j: int| 0 <= j < w.len() implies valid_position((#[trigger] w[j]).1) by {
                if j < h.len() {
                    assert(w[j] == h[j]);
                }
            }
        }
    }
}

proof fn lemma_sunk_update(
    h: Seq<(Seq<char>, PositionInner)>,
    i: int,
    x: (Seq<char>, PositionInner),
)
    requires
        0 <= i < h.len(),
    ensures
        total_sunk(h.update(i, x)) == total_sunk(h) - sunk(h[i].1) + sunk(x.1),
    decreases h.len(),
{
    let w = h.update(i, x);
    if i == h.len() - 1 {
        assert(w.drop_last() =~= h.drop_last());
    } else {
        assert(w.drop_last() =~= h.drop_last().update(i, x));
        lemma_sunk_update(h.drop_last(), i, x);
    }
}

/// Trying an order again keeps the balance.
proof fn lemma_retry_balance(
    o: OrderInner,
    cash: Decimal,
    h: Seq<(Seq<char>, PositionInner)>,
    binance: OrderBook,
    coindcx: OrderBook,
)
    requires
        valid_order(o),
        cash.valid(),
        valid_holds(h),
        valid_books(binance, coindcx),
        trades_exactly(o.terms(), offers(o.side, binance, coindcx), resumed(o, cash, h)),
        retried(o, cash, h, binance, coindcx) is Some,
    ensures
        ({
            let x = retried(o, cash, h, binance, coindcx)->0;
            let next = with_held(h, o.symbol@, x.tally.held);
            &&& balance_of(x.tally.cash, next) == balance_of(cash, h)
            &&& x.tally.cash.valid()
            &&& valid_holds(next)
            &&& valid_order(x.order)
            &&& x.order.symbol == o.symbol
        }),
{
    let start = resumed(o, cash, h);
    let lots = offers(o.side, binance, coindcx);
    let x = retried(o, cash, h, binance, coindcx)->0;
    lemma_outcomes_valid(o.total_qty, o.filled_qty);
    lemma_sunk_with(h, o.symbol@, held(h, o.symbol@));
    law_trading_keeps_the_balance(o.terms(), lots, start);
    lemma_sunk_with(h, o.symbol@, x.tally.held);
}

/// Trying orders again keeps the balance.
proof fn lemma_recheck_balance(
    orders: Seq<OrderInner>,
    cash: Decimal,
    h: Seq<(Seq<char>, PositionInner)>,
    binance: OrderBook,
    coindcx: OrderBook,
)
    requires
        valid_orders(orders),
        cash.valid(),
        valid_holds(h),
        valid_books(binance, coindcx),
        rechecks_exactly(orders, cash, h, binance, coindcx),
        limits_run(orders, cash, h, binance, coindcx) is Some,
    ensures
        ({
            let s = limits_run(orders, cash, h, binance, coindcx)->0;
            &&& balance_of(s.cash, s.holds) == balance_of(cash, h)
            &&& s.cash.valid()
            &&& valid_holds(s.holds)
            &&& valid_orders(s.waiting)
        }),
    decreases orders.len(),
{
    if orders.len() > 0 {
        let rest = orders.drop_last();
        let o = orders[orders.len() - 1];
        assert forall|i: int| 0 <= i < rest.len() implies valid_order(#[trigger] rest[i]) by {
            assert(rest[i] == orders[i]);
        }
        lemma_recheck_balance(rest, cash, h, binance, coindcx);
        let s = limits_run(rest, cash, h, binance, coindcx)->0;
        lemma_retry_balance(o, s.cash, s.holds, binance, coindcx);
        let x = retried(o, s.cash, s.holds, binance, coindcx)->0;
        let e = after_retry(s, x);
        assert forall|i: int| 0 <= i < e.waiting.len() implies valid_order(
            #[trigger] e.waiting[i],
        ) by {
            if i < s.waiting.len() {
                assert(e.waiting[i] == s.waiting[i]);
            }
        }
    }
}

/// Where nothing is rounded, no call changes the balance of the account: the cash, together with the
/// quantities held times their average costs, less the realized gains.
pub proof fn law_call_keeps_the_balance(before: TradingState, after: TradingState, call: Call)
    requires
        valid_account(before),
        valid_call(call),
        is_call(before, after, call),
        settles(before, call),
    ensures
        account_balance(after) == account_balance(before),
        valid_account(after),
{
    match call {
        Call::Place { result, terms, symbol, quantity, binance, coindcx, now } => {
            let h = before.holds();
            let start = started(quantity, before.cash(), h, symbol@);
            let lots = offers(terms.side, binance, coindcx);
            let (t, trades, status) = placement(
                terms,
                symbol@,
                quantity,
                before.cash(),
                h,
                binance,
                coindcx,
            )->0;
            lemma_start(quantity);
            lemma_zero_valid();
            lemma_outcomes_valid(quantity, zero());
            lemma_sunk_with(h, symbol@, held(h, symbol@));
            law_trading_keeps_the_balance(terms, lots, start);
            lemma_sunk_with(h, symbol@, t.held);
            let w = after.waiting();
            assert forall|i: int| 0 <= i < w.len() implies valid_order(#[trigger] w[i]) by {
                if i < before.waiting().len() {
                    assert(w[i] == before.waiting()[i]);
                }
            }
        },
        Call::Recheck { binance, coindcx, .. } => {
            lemma_recheck_balance(
                before.waiting(),
                before.cash(),
                before.holds(),
                binance,
                coindcx,
            );
        },
        Call::Cancel { order, id, now } => {
            if let Some(order) = order {
                let w = before.waiting();
                let i = choose|i: int| takes_back(w, after.waiting(), order, id, now, i);
                assert forall|j: int| 0 <= j < after.waiting().len() implies valid_order(
                    #[trigger] after.waiting()[j],
                ) by {
                    let k = if j < i { j } else { j + 1 };
                    assert(after.waiting()[j] == w[k]);
                }
            }
        },
    }
}

proof fn lemma_zero_valid()
    ensures
        zero().valid(),
        zero().units() == 0,
{
    broadcast use group_decimal;

    law_sign_of_value(zero());
}

/// Where nothing is rounded, the balance of an account is what it began with, whatever was called.
pub proof fn law_run_keeps_the_balance(cash: Decimal, states: Seq<TradingState>, calls: Seq<Call>)
    requires
        cash.valid(),
        is_run(cash, states, calls),
        forall|i: int| 0 <= i < calls.len() ==> valid_call(#[trigger] calls[i]),
        forall|i: int| 0 <= i < calls.len() ==> settles(states[i], #[trigger] calls[i]),
    ensures
        account_balance(states.last()) == cash.units() * one_units(),
        valid_account(states.last()),
    decreases calls.len(),
{
    if calls.len() > 0 {
        let (s, c) = (states.drop_last(), calls.drop_last());
        let n = calls.len() - 1;
        lemma_run_before(cash, states, calls);
        assert forall|i: int| 0 <= i < c.len() implies valid_call(#[trigger] c[i]) && settles(
            s[i],
            c[i],
        ) by {
            assert(c[i] == calls[i] && s[i] == states[i]);
        }
        law_run_keeps_the_balance(cash, s, c);
        assert(settles(states[n], calls[n]) && valid_call(calls[n]));
        law_call_keeps_the_balance(s.last(), states.last(), calls.last());
    }
}

/// The quantities held times their average costs, added up, in squared units.
pub open spec fn total_cost(h: Seq<(Seq<char>, PositionInner)>) -> int
    decreases h.len(),
{
    if h.len() == 0 {
        0
    } else {
        total_cost(h.drop_last()) + h.last().1.qty.units() * h.last().1.avg_cost.units()
    }
}

/// Whether adding up the realized gains rounds nothing.
pub open spec fn gains_add_exactly(h: Seq<(Seq<char>, PositionInner)>) -> bool
    decreases h.len(),
{
    h.len() == 0 || {
        &&& gains_add_exactly(h.drop_last())
        &&& total_realized(h.drop_last()) matches Some(t) ==> sum_is_exact(
            t,
            h.last().1.realized_pnl,
        )
    }
}

/// What is sunk into positions is their cost less their gains.
proof fn lemma_sunk_is_cost_less_gain(h: Seq<(Seq<char>, PositionInner)>)
    requires
        valid_holds(h),
        gains_add_exactly(h),
        total_realized(h) is Some,
    ensures
        total_sunk(h) == total_cost(h) - total_realized(h)->0.units() * one_units(),
        total_realized(h)->0.valid(),
    decreases h.len(),
{
    lemma_zero_valid();
    if h.len() == 0 {
        let one = one_units();
        assert(0 * one == 0);
    } else {
        let rest = h.drop_last();
        assert forall|i: int| 0 <= i < rest.len() implies valid_position((#[trigger] rest[i]).1) by {
            assert(rest[i] == h[i]);
        }
        assert(valid_position(h[h.len() - 1].1));
        lemma_sunk_is_cost_less_gain(rest);
        let t = total_realized(rest)->0;
        let g = h.last().1.realized_pnl;
        lemma_outcomes_valid(t, g);
        let (x, y, one) = (t.units(), g.units(), one_units());
        assert((x + y) * one == x * one + y * one) by (nonlinear_arith);
    }
}

/// The positions that are listed hold something, have different symbols and hold all the cost.
proof fn lemma_open_positions(h: Seq<(Seq<char>, PositionInner)>)
    requires
        valid_holds(h),
        distinct_symbols(h),
    ensures
        total_cost(open_positions(h)) == total_cost(h),
        distinct_symbols(open_positions(h)),
        forall|i: int|
            0 <= i < open_positions(h).len() ==> (
            #[trigger] open_positions(h)[i]).1.qty.coefficient() != 0,
        forall|i: int|
            0 <= i < open_positions(h).len() ==> exists|j: int|
                0 <= j < h.len() && h[j] == #[trigger] open_positions(h)[i],
    decreases h.len(),
{
    reveal(Seq::filter);
    let open = open_positions(h);
    if h.len() > 0 {
        let rest = h.drop_last();
        let n = h.len() - 1;
        assert forall|i: int| 0 <= i < rest.len() implies valid_position((#[trigger] rest[i]).1) by {
            assert(rest[i] == h[i]);
        }
        assert(distinct_symbols(rest)) by {
            assert forall|i: int, j: int| 0 <= i < j < rest.len() implies (#[trigger] rest[i]).0 != (
            #[trigger] rest[j]).0 by {
                assert(rest[i] == h[i] && rest[j] == h[j]);
            }
        }
        lemma_open_positions(rest);
        let before = open_positions(rest);
        let (q, c) = (h[n].1.qty.units(), h[n].1.avg_cost.units());
        assert(valid_position(h[n].1));
        law_sign_of_value(h[n].1.qty);
        if h[n].1.qty.coefficient() == 0 {
            assert(q * c == 0) by (nonlinear_arith)
                requires
                    q == 0,
            ;
            assert(open == before);
        } else {
            assert(open == before.push(h[n]));
            assert(open.drop_last() =~= before);
        }
        assert forall|i: int| 0 <= i < open.len() implies exists|j: int|
            0 <= j < h.len() && h[j] == #[trigger] open[i] by {
            if i < before.len() {
                assert(open[i] == before[i]);
                let j = choose|j: int| 0 <= j < rest.len() && rest[j] == before[i];
                assert(h[j] == open[i]);
            } else {
                assert(h[n] == open[i]);
            }
        }
        assert forall|i: int| 0 <= i < open.len() implies (
        #[trigger] open[i]).1.qty.coefficient() != 0 by {
            if i < before.len() {
                assert(open[i] == before[i]);
            }
        }
        assert forall|i: int, j: int| 0 <= i < j < open.len() implies (#[trigger] open[i]).0 != (
        #[trigger] open[j]).0 by {
            assert(open[i] == before[i]);
            if j < before.len() {
                assert(open[j] == before[j]);
            } else {
                let k = choose|k: int| 0 <= k < rest.len() && rest[k] == before[i];
                assert(h[k] == open[i]);
            }
        }
    } else {
        assert(open =~= h);
    }
}

/// What a portfolio shows adds up. Where nothing is rounded, over any series of calls: the cash,
/// together with the quantities of the listed positions times their average costs, is the initial
/// cash together with the total of the realized gains. The listed positions hold something and have
/// different symbols.
pub proof fn law_portfolio_adds_up(cash: Decimal, states: Seq<TradingState>, calls: Seq<Call>)
    requires
        cash.valid(),
        is_run(cash, states, calls),
        forall|i: int| 0 <= i < calls.len() ==> valid_call(#[trigger] calls[i]),
        forall|i: int| 0 <= i < calls.len() ==> settles(states[i], #[trigger] calls[i]),
        gains_add_exactly(states.last().holds()),
        total_realized(states.last().holds()) is Some,
    ensures
        ({
            let h = states.last().holds();
            let listed = open_positions(h);
            &&& states.last().cash().units() * one_units() + total_cost(listed) == (cash.units()
                + total_realized(h)->0.units()) * one_units()
            &&& distinct_symbols(listed)
            &&& forall|i: int|
                0 <= i < listed.len() ==> (#[trigger] listed[i]).1.qty.coefficient() != 0
        }),
{
    let st = states[states.len() - 1];
    let h = st.holds();
    assert(st.wf());
    law_run_keeps_the_balance(cash, states, calls);
    lemma_sunk_is_cost_less_gain(h);
    lemma_open_positions(h);
    let (c, g, one) = (cash.units(), total_realized(h)->0.units(), one_units());
    assert((c + g) * one == c * one + g * one) by (nonlinear_arith);
}

/// Whether a waiting order is in step with what it has got. Something of it is still wanted. Either it
/// is open, has got nothing and has no average price; or it is partially filled, has got something
/// and has one.
pub open spec fn in_step(o: OrderInner) -> bool {
    &&& o.order_type == OrderType::Limit
    &&& 0 <= o.filled_qty.units() < o.total_qty.units()
    &&& if o.filled_qty.units() == 0 {
        o.status == OrderStatus::Open && o.average_price() == Some(None::<Decimal>)
    } else {
        o.status == OrderStatus::PartiallyFilled && (o.average_price() matches Some(Some(_)))
    }
}

/// Whether all orders are in step.
pub open spec fn all_in_step(orders: Seq<OrderInner>) -> bool {
    forall|i: int| 0 <= i < orders.len() ==> in_step(#[trigger] orders[i])
}

/// Whether two books offer something with every level.
pub open spec fn positive_books(binance: OrderBook, coindcx: OrderBook) -> bool {
    positive_lots(offers(Side::Buy, binance, coindcx)) && positive_lots(
        offers(Side::Sell, binance, coindcx),
    )
}

/// Whether a call asks for something and is offered something.
pub open spec fn positive_call(call: Call) -> bool {
    match call {
        Call::Place { quantity, binance, coindcx, .. } => quantity.units() > 0 && positive_books(
            binance,
            coindcx,
        ),
        Call::Recheck { binance, coindcx, .. } => positive_books(binance, coindcx),
        Call::Cancel { .. } => true,
    }
}

/// Whether trying an order again rounds no sum.
pub open spec fn retries_exactly(
    o: OrderInner,
    s: LimitsRun,
    binance: OrderBook,
    coindcx: OrderBook,
) -> bool {
    &&& difference_is_exact(o.total_qty, o.filled_qty)
    &&& walks_exactly(o.terms(), offers(o.side, binance, coindcx), resumed(o, s.cash, s.holds))
    &&& retried(o, s.cash, s.holds, binance, coindcx) matches Some(x) ==> difference_is_exact(
        o.total_qty,
        x.tally.filled,
    )
}

/// Whether trying orders again rounds no sum.
pub open spec fn recheck_adds_exactly(
    orders: Seq<OrderInner>,
    cash: Decimal,
    h: Seq<(Seq<char>, PositionInner)>,
    binance: OrderBook,
    coindcx: OrderBook,
) -> bool
    decreases orders.len(),
{
    orders.len() == 0 || {
        &&& recheck_adds_exactly(orders.drop_last(), cash, h, binance, coindcx)
        &&& limits_run(orders.drop_last(), cash, h, binance, coindcx) matches Some(s)
            ==> retries_exactly(orders.last(), s, binance, coindcx)
    }
}

/// Whether a call rounds no sum. The price of a trade and the average cost of a position may be
/// rounded.
pub open spec fn adds_up(before: TradingState, call: Call) -> bool {
    match call {
        Call::Place { terms, symbol, quantity, binance, coindcx, .. } => {
            &&& walks_exactly(
                terms,
                offers(terms.side, binance, coindcx),
                started(quantity, before.cash(), before.holds(), symbol@),
            )
            &&& placement(
                terms,
                symbol@,
                quantity,
                before.cash(),
                before.holds(),
                binance,
                coindcx,
            ) matches Some((t, _, _)) ==> difference_is_exact(quantity, t.filled)
        },
        Call::Recheck { binance, coindcx, .. } => recheck_adds_exactly(
            before.waiting(),
            before.cash(),
            before.holds(),
            binance,
            coindcx,
        ),
        Call::Cancel { .. } => true,
    }
}

/// Trying orders again keeps those that wait on in step.
proof fn lemma_recheck_in_step(
    orders: Seq<OrderInner>,
    cash: Decimal,
    h: Seq<(Seq<char>, PositionInner)>,
    binance: OrderBook,
    coindcx: OrderBook,
)
    requires
        valid_orders(orders),
        cash.valid(),
        valid_books(binance, coindcx),
        positive_books(binance, coindcx),
        all_in_step(orders),
        recheck_adds_exactly(orders, cash, h, binance, coindcx),
        limits_run(orders, cash, h, binance, coindcx) is Some,
    ensures
        ({
            let s = limits_run(orders, cash, h, binance, coindcx)->0;
            &&& s.cash.valid()
            &&& valid_orders(s.waiting)
            &&& all_in_step(s.waiting)
        }),
    decreases orders.len(),
{
    if orders.len() > 0 {
        let rest = orders.drop_last();
        let o = orders[orders.len() - 1];
        assert forall|i: int| 0 <= i < rest.len() implies valid_order(#[trigger] rest[i])
            && in_step(rest[i]) by {
            assert(rest[i] == orders[i]);
        }
        lemma_recheck_in_step(rest, cash, h, binance, coindcx);
        let s = limits_run(rest, cash, h, binance, coindcx)->0;
        let x = retried(o, s.cash, s.holds, binance, coindcx)->0;
        let e = after_retry(s, x);
        let lots = offers(o.side, binance, coindcx);
        let start = resumed(o, s.cash, s.holds);
        assert(valid_order(o) && in_step(o));
        lemma_outcomes_valid(o.total_qty, o.filled_qty);
        law_nothing_is_lost(o.terms(), lots, start);
        law_trades_are_positive(o.terms(), lots, start);
        if x.trades.len() == 0 {
            lemma_no_trade(o.terms(), lots, start);
        } else {
            lemma_outcomes_valid(o.total_qty, x.tally.filled);
            law_sign_of_value(x.order.rest()->0);
            law_sign_of_value(x.tally.filled);
        }
        assert forall|i: int| 0 <= i < e.waiting.len() implies valid_order(#[trigger] e.waiting[i])
            && in_step(e.waiting[i]) by {
            if i < s.waiting.len() {
                assert(e.waiting[i] == s.waiting[i]);
            }
        }
    }
}

/// Where no sum is rounded, orders ask for something and levels offer something, every call keeps the
/// waiting orders in step with what they have got.
pub proof fn law_call_keeps_orders_in_step(before: TradingState, after: TradingState, call: Call)
    requires
        before.cash().valid(),
        valid_orders(before.waiting()),
        valid_call(call),
        positive_call(call),
        after.wf(),
        is_call(before, after, call),
        adds_up(before, call),
        all_in_step(before.waiting()),
    ensures
        all_in_step(after.waiting()),
        valid_orders(after.waiting()),
        after.cash().valid(),
{
    let w = after.waiting();
    match call {
        Call::Place { result, terms, symbol, quantity, binance, coindcx, now } => {
            let h = before.holds();
            let start = started(quantity, before.cash(), h, symbol@);
            let lots = offers(terms.side, binance, coindcx);
            let (t, trades, status) = placement(
                terms,
                symbol@,
                quantity,
                before.cash(),
                h,
                binance,
                coindcx,
            )->0;
            lemma_start(quantity);
            lemma_zero_valid();
            lemma_outcomes_valid(quantity, zero());
            law_sign_of_value(quantity);
            law_nothing_is_lost(terms, lots, start);
            law_trades_are_positive(terms, lots, start);
            lemma_outcomes_valid(quantity, t.filled);
            law_sign_of_value(t.filled);
            assert forall|i: int| 0 <= i < w.len() implies valid_order(#[trigger] w[i]) && in_step(
                w[i],
            ) by {
                assert(can_wait(w[i]));
                if i < before.waiting().len() {
                    assert(w[i] == before.waiting()[i]);
                } else {
                    law_sign_of_value(w[i].rest()->0);
                }
            }
        },
        Call::Recheck { binance, coindcx, .. } => {
            lemma_recheck_in_step(
                before.waiting(),
                before.cash(),
                before.holds(),
                binance,
                coindcx,
            );
        },
        Call::Cancel { order, id, now } => {
            if let Some(order) = order {
                let b = before.waiting();
                let i = choose|i: int| takes_back(b, w, order, id, now, i);
                assert forall|j: int| 0 <= j < w.len() implies valid_order(#[trigger] w[j])
                    && in_step(w[j]) by {
                    let k = if j < i { j } else { j + 1 };
                    assert(w[j] == b[k]);
                }
            }
        },
    }
}

/// Where no sum is rounded, orders ask for something and levels offer something, the waiting orders
/// are in step with what they have got, whatever was called.
pub proof fn law_run_keeps_orders_in_step(
    cash: Decimal,
    states: Seq<TradingState>,
    calls: Seq<Call>,
)
    requires
        cash.valid(),
        is_run(cash, states, calls),
        forall|i: int| 0 <= i < calls.len() ==> valid_call(#[trigger] calls[i]),
        forall|i: int| 0 <= i < calls.len() ==> positive_call(#[trigger] calls[i]),
        forall|i: int| 0 <= i < calls.len() ==> adds_up(states[i], #[trigger] calls[i]),
    ensures
        all_in_step(states.last().waiting()),
        valid_orders(states.last().waiting()),
        states.last().cash().valid(),
    decreases calls.len(),
{
    if calls.len() > 0 {
        let (s, c) = (states.drop_last(), calls.drop_last());
        let n = calls.len() - 1;
        lemma_run_before(cash, states, calls);
        assert forall|i: int| 0 <= i < c.len() implies valid_call(#[trigger] c[i]) && positive_call(
            c[i],
        ) && adds_up(s[i], c[i]) by {
            assert(c[i] == calls[i] && s[i] == states[i]);
        }
        law_run_keeps_orders_in_step(cash, s, c);
        assert(valid_call(calls[n]) && positive_call(calls[n]) && adds_up(states[n], calls[n]));
        law_call_keeps_orders_in_step(s.last(), states.last(), calls.last());
    }
}

} // verus!
