//! What trying the waiting orders again comes to, order by order, and what a portfolio shows.

use crate::account_laws::{valid_holds, valid_order};
use crate::book::OrderBook;
use crate::decimal::{in_reach, is_rounded, law_sum_is_rounded, short_text, Decimal};
use crate::execution::{offers, valid_lots, Lot};
use crate::matching::{
    filled_of, fills_of, fills_show, is_rechecked, limits_run, open_positions, position_shows,
    retried, shows, snapshot_shows, total_realized, LimitsRun, MatchResult, Order, OrderInner,
    OrderStatus, PortfolioSnapshot, Position, TradingState,
};
use crate::order_laws::{
    is_shown, law_fills_tell_of_the_trades, law_order_is_shown_as_it_stands,
    law_setting_a_position_is_read_back, law_trying_an_order_again, reads_position, tell_trades,
};
use crate::position::{distinct_symbols, held, valid_position, PositionInner};
use crate::rounding::lemma_zero_in_reach;
use vstd::prelude::*;

verus! {

/// Trying orders again in two parts is trying them again in one: the second part starts from the cash
/// and the positions that the first leaves, and what waits on and what has traded of the two parts
/// stands together, the first part first.
pub proof fn law_orders_are_tried_in_turn(
    first: Seq<OrderInner>,
    second: Seq<OrderInner>,
    cash: Decimal,
    h: Seq<(Seq<char>, PositionInner)>,
    binance: OrderBook,
    coindcx: OrderBook,
)
    ensures
        limits_run(first + second, cash, h, binance, coindcx) == match limits_run(
            first,
            cash,
            h,
            binance,
            coindcx,
        ) {
            None => None,
            Some(a) => match limits_run(second, a.cash, a.holds, binance, coindcx) {
                None => None,
                Some(b) => Some(
                    LimitsRun {
                        cash: b.cash,
                        holds: b.holds,
                        waiting: a.waiting + b.waiting,
                        matched: a.matched + b.matched,
                    },
                ),
            },
        },
    decreases second.len(),
{
    let all = first + second;
    let whole = limits_run(all, cash, h, binance, coindcx);
    let a = limits_run(first, cash, h, binance, coindcx);
    if second.len() == 0 {
        assert(all =~= first);
        if let Some(s) = a {
            assert(s.waiting + Seq::<OrderInner>::empty() =~= s.waiting);
            assert(s.matched + Seq::<(OrderInner, Seq<Lot>)>::empty() =~= s.matched);
        }
    } else {
        let rest = second.drop_last();
        let o = second.last();
        assert(all.drop_last() =~= first + rest);
        assert(all.last() == o);
        law_orders_are_tried_in_turn(first, rest, cash, h, binance, coindcx);
        if let Some(s) = a {
            if let Some(b) = limits_run(rest, s.cash, s.holds, binance, coindcx) {
                if let Some(x) = retried(o, b.cash, b.holds, binance, coindcx) {
                    assert((s.waiting + b.waiting).push(x.order) =~= s.waiting + b.waiting.push(
                        x.order,
                    ));
                    assert((s.matched + b.matched).push((x.order, x.trades)) =~= s.matched
                        + b.matched.push((x.order, x.trades)));
                }
            }
        }
    }
}

/// Trying one order again leaves the cash and the position that its attempt ends with. It is reported
/// where it has traded, and waits on unless it has traded and got all that it asks for.
pub proof fn law_one_order_is_tried(
    o: OrderInner,
    cash: Decimal,
    h: Seq<(Seq<char>, PositionInner)>,
    binance: OrderBook,
    coindcx: OrderBook,
    other: Seq<char>,
)
    requires
        valid_order(o),
        cash.valid(),
        valid_holds(h),
        distinct_symbols(h),
        valid_lots(offers(o.side, binance, coindcx)),
    ensures
        limits_run(seq![o], cash, h, binance, coindcx) is Some <==> retried(
            o,
            cash,
            h,
            binance,
            coindcx,
        ) is Some,
        limits_run(seq![o], cash, h, binance, coindcx) matches Some(s) ==> {
            let x = retried(o, cash, h, binance, coindcx)->0;
            let done = x.trades.len() > 0 && x.tally.filled.units() == o.total_qty.units();
            &&& s.cash == x.tally.cash
            &&& x.tally.held is Some ==> reads_position(s.holds, o.symbol@, x.tally.held)
            &&& x.tally.held is None ==> s.holds == h
            &&& other != o.symbol@ ==> reads_position(s.holds, other, held(h, other))
            &&& done ==> s.waiting.len() == 0
            &&& !done ==> s.waiting == seq![x.order]
            &&& x.trades.len() > 0 ==> s.matched == seq![(x.order, x.trades)]
            &&& x.trades.len() == 0 ==> s.matched.len() == 0
        },
        limits_run(Seq::empty(), cash, h, binance, coindcx) == Some(
            LimitsRun { cash, holds: h, waiting: Seq::empty(), matched: Seq::empty() },
        ),
{
    reveal_with_fuel(limits_run, 2);
    assert(seq![o].drop_last() =~= Seq::<OrderInner>::empty());
    assert(seq![o].last() == o);
    if let Some(x) = retried(o, cash, h, binance, coindcx) {
        law_trying_an_order_again(o, cash, h, binance, coindcx);
        law_setting_a_position_is_read_back(h, o.symbol@, x.tally.held, other);
        assert(Seq::<OrderInner>::empty().push(x.order) =~= seq![x.order]);
        assert(Seq::<(OrderInner, Seq<Lot>)>::empty().push((x.order, x.trades)) =~= seq![
            (x.order, x.trades),
        ]);
        if x.trades.len() == 0 {
            assert(o.status == x.order.status);
        }
    }
}

/// What trying the waiting orders again leaves and reports: the cash, the positions and the waiting
/// orders are those of the run, each order that has traded is shown as it stands with the fills of its
/// trades, the fills join the log, and the orders that are wholly filled join the history.
pub proof fn law_recheck_reports_every_trade(
    before: TradingState,
    after: TradingState,
    r: Seq<MatchResult>,
    binance: OrderBook,
    coindcx: OrderBook,
    now: u64,
)
    requires
        is_rechecked(before, after, r, binance, coindcx, now),
    ensures
        limits_run(before.waiting(), before.cash(), before.holds(), binance, coindcx) matches Some(s)
            && {
            &&& after.cash() == s.cash
            &&& after.holds() == s.holds
            &&& after.waiting() == s.waiting
            &&& r.len() == s.matched.len()
            &&& forall|i: int|
                0 <= i < r.len() && s.matched[i].0.filled_qty.valid()
                    && s.matched[i].0.cost_accum.valid() ==> is_shown(
                    (#[trigger] r[i]).order,
                    s.matched[i].0,
                    now,
                )
            &&& forall|i: int|
                0 <= i < r.len() ==> tell_trades(
                    (#[trigger] r[i]).new_fills@,
                    s.matched[i].1,
                    s.matched[i].0.id@,
                    s.matched[i].0.side,
                    now,
                )
        },
        after.fill_log() == before.fill_log() + fills_of(r),
        after.history() == before.history() + filled_of(r),
{
    let s = limits_run(before.waiting(), before.cash(), before.holds(), binance, coindcx)->0;
    assert forall|i: int|
        0 <= i < r.len() && s.matched[i].0.filled_qty.valid()
            && s.matched[i].0.cost_accum.valid() implies is_shown(
        (#[trigger] r[i]).order,
        s.matched[i].0,
        now,
    ) by {
        assert(shows(r[i].order, s.matched[i].0, now));
        law_order_is_shown_as_it_stands(r[i].order, s.matched[i].0, now);
    }
    assert forall|i: int| 0 <= i < r.len() implies tell_trades(
        (#[trigger] r[i]).new_fills@,
        s.matched[i].1,
        s.matched[i].0.id@,
        s.matched[i].0.side,
        now,
    ) by {
        assert(fills_show(
            r[i].new_fills@,
            s.matched[i].1,
            s.matched[i].0.id@,
            s.matched[i].0.side,
            now,
        ));
        law_fills_tell_of_the_trades(
            r[i].new_fills@,
            s.matched[i].1,
            s.matched[i].0.id@,
            s.matched[i].0.side,
            now,
        );
    }
}

/// The fills of results are those of the first ones and then those of the others, and the fills of one
/// result are its own. So it is with the orders that are wholly filled: one result has its order where
/// that is filled, and none where it is not.
pub proof fn law_results_are_recorded_in_turn(
    first: Seq<MatchResult>,
    second: Seq<MatchResult>,
    one: MatchResult,
)
    ensures
        fills_of(first + second) == fills_of(first) + fills_of(second),
        filled_of(first + second) == filled_of(first) + filled_of(second),
        fills_of(seq![one]) == one.new_fills@,
        one.order.status == OrderStatus::Filled ==> filled_of(seq![one]) == seq![one.order],
        one.order.status != OrderStatus::Filled ==> filled_of(seq![one]).len() == 0,
    decreases second.len(),
{
    reveal_with_fuel(fills_of, 2);
    reveal_with_fuel(filled_of, 2);
    assert(seq![one].drop_last() =~= Seq::<MatchResult>::empty());
    assert(fills_of(seq![one]) =~= one.new_fills@);
    assert(Seq::<Order>::empty().push(one.order) =~= seq![one.order]);
    let all = first + second;
    if second.len() == 0 {
        assert(all =~= first);
        assert(fills_of(first) + fills_of(second) =~= fills_of(first));
        assert(filled_of(first) + filled_of(second) =~= filled_of(first));
    } else {
        let rest = second.drop_last();
        assert(all.drop_last() =~= first + rest);
        law_results_are_recorded_in_turn(first, rest, one);
        assert(fills_of(all) =~= fills_of(first) + fills_of(second));
        assert(filled_of(all) =~= filled_of(first) + filled_of(second));
    }
}

/// The positions of which something is held are those of the first part of a list and then those of
/// the second, and one position is among them exactly where something of it is held.
pub proof fn law_open_positions(
    first: Seq<(Seq<char>, PositionInner)>,
    second: Seq<(Seq<char>, PositionInner)>,
    one: (Seq<char>, PositionInner),
)
    ensures
        open_positions(first + second) == open_positions(first) + open_positions(second),
        one.1.qty.coefficient() != 0 ==> open_positions(seq![one]) == seq![one],
        one.1.qty.coefficient() == 0 ==> open_positions(seq![one]).len() == 0,
    decreases second.len(),
{
    reveal(Seq::filter);
    reveal_with_fuel(Seq::filter, 2);
    let all = first + second;
    assert(seq![one].drop_last() =~= Seq::<(Seq<char>, PositionInner)>::empty());
    assert(Seq::<(Seq<char>, PositionInner)>::empty().push(one) =~= seq![one]);
    if second.len() == 0 {
        assert(all =~= first);
        assert(open_positions(second) =~= Seq::empty());
        assert(open_positions(first) + open_positions(second) =~= open_positions(first));
    } else {
        let rest = second.drop_last();
        assert(all.drop_last() =~= first + rest);
        assert(all.last() == second.last());
        law_open_positions(first, rest, one);
        assert(open_positions(all) =~= open_positions(first) + open_positions(second));
    }
}

/// Without positions nothing has been earned. One more position adds what it has earned to the total,
/// and the total fails only where it leaves what decimals can hold.
pub proof fn law_total_adds_each_gain(
    h: Seq<(Seq<char>, PositionInner)>,
    one: (Seq<char>, PositionInner),
)
    requires
        valid_holds(h),
        one.1.realized_pnl.valid(),
    ensures
        total_realized(Seq::empty()) matches Some(t) && t.units() == 0,
        total_realized(h) matches Some(t) ==> t.valid() && match total_realized(h.push(one)) {
            Some(u) => is_rounded(u, t.units() + one.1.realized_pnl.units(), 1),
            None => !in_reach(t.units() + one.1.realized_pnl.units(), 1),
        },
        total_realized(h) is None ==> total_realized(h.push(one)) is None,
    decreases h.len(),
{
    lemma_zero_in_reach();
    let w = h.push(one);
    assert(w.drop_last() =~= h);
    assert(w.last() == one);
    lemma_total_valid(h);
    if let Some(t) = total_realized(h) {
        law_sum_is_rounded(t, one.1.realized_pnl);
    }
}

proof fn lemma_total_valid(h: Seq<(Seq<char>, PositionInner)>)
    requires
        valid_holds(h),
    ensures
        total_realized(h) matches Some(t) ==> t.valid(),
    decreases h.len(),
{
    lemma_zero_in_reach();
    if h.len() > 0 {
        let rest = h.drop_last();
        assert forall|i: int| 0 <= i < rest.len() implies valid_position(
            (#[trigger] rest[i]).1,
        ) by {
            assert(rest[i] == h[i]);
        }
        lemma_total_valid(rest);
        assert(valid_position(h[h.len() - 1].1));
        if let Some(t) = total_realized(rest) {
            law_sum_is_rounded(t, h.last().1.realized_pnl);
        }
    }
}

/// Whether a position is shown: its symbol, its quantity, its average cost and what it has earned.
pub open spec fn tells_position(p: Position, x: (Seq<char>, PositionInner)) -> bool {
    &&& p.symbol@ == x.0
    &&& p.quantity@ == short_text(x.1.qty)
    &&& p.avg_cost@ == short_text(x.1.avg_cost)
    &&& p.realized_pnl@ == short_text(x.1.realized_pnl)
}

/// A portfolio shows the cash, the positions of which something is held, each and in their order, and
/// the total of what all positions have earned.
pub proof fn law_portfolio_is_shown(r: PortfolioSnapshot, st: TradingState)
    requires
        snapshot_shows(r, st),
    ensures
        r.cash@ == short_text(st.cash()),
        r.positions@.len() == open_positions(st.holds()).len(),
        forall|i: int|
            0 <= i < r.positions@.len() ==> tells_position(
                #[trigger] r.positions@[i],
                open_positions(st.holds())[i],
            ),
        total_realized(st.holds()) matches Some(t) && r.total_realized_pnl@ == short_text(t),
{
    assert forall|i: int| 0 <= i < r.positions@.len() implies tells_position(
        #[trigger] r.positions@[i],
        open_positions(st.holds())[i],
    ) by {
        assert(position_shows(r.positions@[i], open_positions(st.holds())[i]));
    }
}

} // verus!
