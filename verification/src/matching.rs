//! Orders, fills and the account they belong to.

use crate::book::OrderBook;
use crate::clock::now_ms;
use crate::decimal::{difference, plus, quotient, short_text, short_text_of, zero, Decimal};
use crate::execution::{
    collect_offers, offers, venue_name, walk_lots, walked, Lot, OrderType, Side, Tally, Terms,
};
use crate::ids::{fresh_id, is_random_uuid};
use crate::position::{
    distinct_symbols, held, holdings, position_of, set_position, with_held, PositionEntry,
    PositionInner,
};
use vstd::prelude::*;

verus! {

/// How far an order has come.
#[derive(Clone, Copy, Debug, PartialEq, Eq, Structural)]
pub enum OrderStatus {
    Open,
    PartiallyFilled,
    Filled,
    Cancelled,
}

/// An order as it is shown, its numbers as text.
#[derive(Debug)]
pub struct Order {
    pub id: String,
    pub side: Side,
    pub order_type: OrderType,
    pub symbol: String,
    pub price: Option<String>,
    pub quantity: String,
    pub filled_qty: String,
    pub avg_fill_price: Option<String>,
    pub status: OrderStatus,
    pub created_at: u64,
    pub updated_at: u64,
}

/// A fill as it is shown.
#[derive(Debug)]
pub struct Fill {
    pub id: String,
    pub order_id: String,
    pub side: Side,
    pub price: String,
    pub quantity: String,
    pub exchange: String,
    pub ts_ms: u64,
}

/// A position as it is shown.
#[derive(Debug)]
pub struct Position {
    pub symbol: String,
    pub quantity: String,
    pub avg_cost: String,
    pub realized_pnl: String,
}

/// The account as it is shown.
#[derive(Debug)]
pub struct PortfolioSnapshot {
    pub cash: String,
    pub positions: Vec<Position>,
    pub total_realized_pnl: String,
}

/// An order, its numbers as numbers.
#[derive(Debug)]
pub struct OrderInner {
    pub id: String,
    pub side: Side,
    pub order_type: OrderType,
    pub symbol: String,
    pub limit_price: Option<Decimal>,
    pub total_qty: Decimal,
    pub filled_qty: Decimal,
    pub cost_accum: Decimal,
    pub status: OrderStatus,
    pub created_at: u64,
}

/// An order that was worked on, and the fills that it got.
#[derive(Debug)]
pub struct MatchResult {
    pub order: Order,
    pub new_fills: Vec<Fill>,
}

/// The text of a value that may be missing.
pub open spec fn text_of(s: Option<String>) -> Option<Seq<char>> {
    match s {
        Some(s) => Some(s@),
        None => None,
    }
}

/// The average price of what was filled: none where nothing was. The outer `None` is an overflow.
pub open spec fn average(cost: Decimal, filled: Decimal) -> Option<Option<Decimal>> {
    if filled.coefficient() == 0 {
        Some(None)
    } else {
        match quotient(cost, filled) {
            Some(a) => Some(Some(a)),
            None => None,
        }
    }
}

impl OrderInner {
    /// What the order asks for.
    pub open spec fn terms(self) -> Terms {
        Terms { side: self.side, order_type: self.order_type, limit: self.limit_price }
    }

    /// What is still wanted. `None` where the arithmetic overflows.
    pub open spec fn rest(self) -> Option<Decimal> {
        difference(self.total_qty, self.filled_qty)
    }

    /// The average price of the fills. The outer `None` is an overflow.
    pub open spec fn average_price(self) -> Option<Option<Decimal>> {
        average(self.cost_accum, self.filled_qty)
    }
}

/// Whether `api` shows the order `o` as of `now`.
pub open spec fn shows(api: Order, o: OrderInner, now: u64) -> bool {
    &&& api.id@ == o.id@
    &&& api.side == o.side
    &&& api.order_type == o.order_type
    &&& api.symbol@ == o.symbol@
    &&& text_of(api.price) == short_text_of(o.limit_price)
    &&& api.quantity@ == short_text(o.total_qty)
    &&& api.filled_qty@ == short_text(o.filled_qty)
    &&& Some(text_of(api.avg_fill_price)) == (match o.average_price() {
        Some(a) => Some(short_text_of(a)),
        None => None,
    })
    &&& api.status == o.status
    &&& api.created_at == o.created_at
    &&& api.updated_at == now
}

/// Whether `fill` shows a trade of an order.
pub open spec fn fill_shows(
    fill: Fill,
    trade: Lot,
    order_id: Seq<char>,
    side: Side,
    now: u64,
) -> bool {
    &&& fill.order_id@ == order_id
    &&& fill.side == side
    &&& fill.price@ == short_text(trade.price)
    &&& fill.quantity@ == short_text(trade.qty)
    &&& fill.exchange@ == venue_name(trade.venue)
    &&& fill.ts_ms == now
}

/// Whether fills show the trades of an order, one each and in their order, with ids of their own.
pub open spec fn fills_show(
    fills: Seq<Fill>,
    trades: Seq<Lot>,
    order_id: Seq<char>,
    side: Side,
    now: u64,
) -> bool {
    &&& fills.len() == trades.len()
    &&& forall|i: int|
        0 <= i < fills.len() ==> fill_shows(#[trigger] fills[i], trades[i], order_id, side, now)
            && is_random_uuid(fills[i].id@)
}

impl Clone for Order {
    /// The same order.
    fn clone(&self) -> (r: Order)
        ensures
            r == *self,
    {
        Order {
            id: self.id.clone(),
            side: self.side,
            order_type: self.order_type,
            symbol: self.symbol.clone(),
            price: copy_text(&self.price),
            quantity: self.quantity.clone(),
            filled_qty: self.filled_qty.clone(),
            avg_fill_price: copy_text(&self.avg_fill_price),
            status: self.status,
            created_at: self.created_at,
            updated_at: self.updated_at,
        }
    }
}

impl Clone for Fill {
    /// The same fill.
    fn clone(&self) -> (r: Fill)
        ensures
            r == *self,
    {
        Fill {
            id: self.id.clone(),
            order_id: self.order_id.clone(),
            side: self.side,
            price: self.price.clone(),
            quantity: self.quantity.clone(),
            exchange: self.exchange.clone(),
            ts_ms: self.ts_ms,
        }
    }
}

impl Clone for Position {
    /// The same position.
    fn clone(&self) -> (r: Position)
        ensures
            r == *self,
    {
        Position {
            symbol: self.symbol.clone(),
            quantity: self.quantity.clone(),
            avg_cost: self.avg_cost.clone(),
            realized_pnl: self.realized_pnl.clone(),
        }
    }
}

impl Clone for PortfolioSnapshot {
    /// The same account.
    fn clone(&self) -> (r: PortfolioSnapshot)
        ensures
            r.cash == self.cash,
            r.positions@ == self.positions@,
            r.total_realized_pnl == self.total_realized_pnl,
    {
        let mut positions: Vec<Position> = Vec::new();
        for i in 0..self.positions.len()
            invariant
                positions@ == self.positions@.take(i as int),
        {
            positions.push(self.positions[i].clone());
        }
        assert(positions@ =~= self.positions@);
        PortfolioSnapshot {
            cash: self.cash.clone(),
            positions,
            total_realized_pnl: self.total_realized_pnl.clone(),
        }
    }
}

/// The same text.
pub(crate) fn copy_text(s: &Option<String>) -> (r: Option<String>)
    ensures
        r == *s,
{
    match s {
        Some(t) => Some(t.clone()),
        None => None,
    }
}

/// The short text of a decimal that may be missing.
pub fn optional_text(d: Option<Decimal>) -> (r: Option<String>)
    ensures
        text_of(r) == short_text_of(d),
{
    match d {
        Some(d) => Some(d.to_text()),
        None => None,
    }
}

/// The average price of what was filled, or `None` where the arithmetic overflows.
fn average_price(cost: Decimal, filled: Decimal) -> (r: Option<Option<Decimal>>)
    ensures
        r == average(cost, filled),
{
    if filled.is_zero() {
        Some(None)
    } else {
        let a = cost.checked_div(filled)?;
        Some(Some(a))
    }
}

impl OrderInner {
    fn asks(&self) -> (r: Terms)
        ensures
            r == self.terms(),
    {
        Terms { side: self.side, order_type: self.order_type, limit: self.limit_price }
    }

    /// The order as it is shown.
    fn to_api(&self, now: u64) -> (r: Order)
        requires
            self.average_price() is Some,
        ensures
            shows(r, *self, now),
            r.id == self.id,
    {
        let avg = average_price(self.cost_accum, self.filled_qty).unwrap();
        Order {
            id: self.id.clone(),
            side: self.side,
            order_type: self.order_type,
            symbol: self.symbol.clone(),
            price: optional_text(self.limit_price),
            quantity: self.total_qty.to_text(),
            filled_qty: self.filled_qty.to_text(),
            avg_fill_price: optional_text(avg),
            status: self.status,
            created_at: self.created_at,
            updated_at: now,
        }
    }
}

impl Fill {
    /// A trade as it is shown, under the given id.
    pub fn of_trade(id: String, order_id: &String, side: Side, trade: Lot, now: u64) -> (r: Fill)
        ensures
            r.id == id,
            fill_shows(r, trade, order_id@, side, now),
    {
        Fill {
            id,
            order_id: order_id.clone(),
            side,
            price: trade.price.to_text(),
            quantity: trade.qty.to_text(),
            exchange: String::from_str(trade.venue.name()),
            ts_ms: now,
        }
    }
}

/// Writes the trades of an order to the log of fills.
fn record_fills(
    log: &mut Vec<Fill>,
    order_id: &String,
    side: Side,
    trades: &Vec<Lot>,
    now: u64,
) -> (r: Vec<Fill>)
    ensures
        fills_show(r@, trades@, order_id@, side, now),
        final(log)@ == old(log)@ + r@,
{
    let mut r: Vec<Fill> = Vec::new();
    let ghost before = log@;
    assert(before + r@ =~= before);
    for i in 0..trades.len()
        invariant
            fills_show(r@, trades@.take(i as int), order_id@, side, now),
            log@ == before + r@,
    {
        let ghost earlier = r@;
        let fill = Fill::of_trade(fresh_id(), order_id, side, trades[i], now);
        log.push(fill.clone());
        r.push(fill);
        assert(log@ =~= before + r@);
        assert forall|j: int| 0 <= j < r@.len() implies fill_shows(
            #[trigger] r@[j],
            trades@.take(i + 1)[j],
            order_id@,
            side,
            now,
        ) && is_random_uuid(r@[j].id@) by {
            if j < i {
                assert(r@[j] == earlier[j]);
                assert(trades@.take(i + 1)[j] == trades@.take(i as int)[j]);
            }
        }
    }
    assert(trades@.take(trades.len() as int) =~= trades@);
    r
}

/// The account after an order has met what the venues offer, and the trades. `None` where the
/// arithmetic overflows.
pub open spec fn attempted(
    terms: Terms,
    symbol: Seq<char>,
    total: Decimal,
    filled: Decimal,
    cost: Decimal,
    cash: Decimal,
    h: Seq<(Seq<char>, PositionInner)>,
    binance: OrderBook,
    coindcx: OrderBook,
) -> Option<(Tally, Seq<Lot>)> {
    match difference(total, filled) {
        None => None,
        Some(remaining) => walked(
            terms,
            offers(terms.side, binance, coindcx),
            Tally { remaining, filled, cost, cash, held: held(h, symbol) },
        ),
    }
}

fn try_fill(
    terms: &Terms,
    symbol: &String,
    total: Decimal,
    filled: Decimal,
    cost: Decimal,
    cash: Decimal,
    positions: &Vec<PositionEntry>,
    binance_book: &OrderBook,
    coindcx_book: &OrderBook,
) -> (r: Option<(Tally, Vec<Lot>)>)
    requires
        distinct_symbols(holdings(positions@)),
    ensures
        ({
            let a = attempted(
                *terms,
                symbol@,
                total,
                filled,
                cost,
                cash,
                holdings(positions@),
                *binance_book,
                *coindcx_book,
            );
            &&& r is Some <==> a is Some
            &&& r matches Some((t, trades)) ==> a == Some((t, trades@))
        }),
{
    let remaining = total.checked_sub(filled)?;
    let lots = collect_offers(terms.side, binance_book, coindcx_book);
    let start = Tally { remaining, filled, cost, cash, held: position_of(positions, symbol) };
    walk_lots(terms, &lots, start)
}

/// The status of an order that has just been placed.
pub open spec fn placed_status(
    order_type: OrderType,
    rest: Decimal,
    filled: Decimal,
) -> OrderStatus {
    if rest.coefficient() == 0 {
        OrderStatus::Filled
    } else if order_type == OrderType::Market {
        if filled.units() > 0 {
            OrderStatus::Filled
        } else {
            OrderStatus::Cancelled
        }
    } else if filled.units() > 0 {
        OrderStatus::PartiallyFilled
    } else {
        OrderStatus::Open
    }
}

/// What placing an order comes to: the account, the trades and the status. `None` where the
/// arithmetic overflows.
pub open spec fn placement(
    terms: Terms,
    symbol: Seq<char>,
    quantity: Decimal,
    cash: Decimal,
    h: Seq<(Seq<char>, PositionInner)>,
    binance: OrderBook,
    coindcx: OrderBook,
) -> Option<(Tally, Seq<Lot>, OrderStatus)> {
    match attempted(terms, symbol, quantity, zero(), zero(), cash, h, binance, coindcx) {
        None => None,
        Some((t, trades)) => match (difference(quantity, t.filled), average(t.cost, t.filled)) {
            (Some(rest), Some(_)) => Some(
                (t, trades, placed_status(terms.order_type, rest, t.filled)),
            ),
            _ => None,
        },
    }
}

/// Whether an order with this status waits for further offers.
pub open spec fn is_waiting(status: OrderStatus) -> bool {
    status == OrderStatus::Open || status == OrderStatus::PartiallyFilled
}

/// The account: its cash, what it holds, the orders that wait, those that are done with, and every
/// fill.
#[derive(Debug)]
pub struct TradingState {
    cash: Decimal,
    positions: Vec<PositionEntry>,
    open_orders: Vec<OrderInner>,
    order_history: Vec<Order>,
    fills: Vec<Fill>,
}

/// Whether an order can wait: it has a limit type and a waiting status, something of it is still
/// wanted, and its average price can be shown.
pub open spec fn can_wait(o: OrderInner) -> bool {
    &&& o.order_type == OrderType::Limit
    &&& is_waiting(o.status)
    &&& o.rest() matches Some(rest) && rest.coefficient() != 0
    &&& o.average_price() is Some
}

/// Whether an order is done with.
pub open spec fn is_finished(o: Order) -> bool {
    o.status == OrderStatus::Filled || o.status == OrderStatus::Cancelled
}

/// An order that has just been placed.
pub open spec fn placed_order(
    id: String,
    terms: Terms,
    symbol: String,
    quantity: Decimal,
    t: Tally,
    status: OrderStatus,
    now: u64,
) -> OrderInner {
    OrderInner {
        id,
        side: terms.side,
        order_type: terms.order_type,
        symbol,
        limit_price: terms.limit,
        total_qty: quantity,
        filled_qty: t.filled,
        cost_accum: t.cost,
        status,
        created_at: now,
    }
}

/// What placing an order does: the cash and the position of its symbol become those of the
/// placement, its fills are returned and appended to the log, the order is shown as it stands, and
/// it joins the waiting orders or the history.
pub open spec fn is_placed(
    before: TradingState,
    after: TradingState,
    r: MatchResult,
    terms: Terms,
    symbol: String,
    quantity: Decimal,
    binance: OrderBook,
    coindcx: OrderBook,
    now: u64,
) -> bool {
    match placement(terms, symbol@, quantity, before.cash(), before.holds(), binance, coindcx) {
        None => false,
        Some((t, trades, status)) => {
            let o = placed_order(r.order.id, terms, symbol, quantity, t, status, now);
            &&& after.cash() == t.cash
            &&& after.holds() == with_held(before.holds(), symbol@, t.held)
            &&& is_random_uuid(o.id@)
            &&& shows(r.order, o, now)
            &&& fills_show(r.new_fills@, trades, o.id@, terms.side, now)
            &&& after.fill_log() == before.fill_log() + r.new_fills@
            &&& after.waiting() == if is_waiting(status) {
                before.waiting().push(o)
            } else {
                before.waiting()
            }
            &&& after.history() == if is_waiting(status) {
                before.history()
            } else {
                before.history().push(r.order)
            }
        },
    }
}

impl TradingState {
    /// The cash.
    pub closed spec fn cash(self) -> Decimal {
        self.cash
    }

    /// What is held, in the order of the first fills.
    pub closed spec fn holds(self) -> Seq<(Seq<char>, PositionInner)> {
        holdings(self.positions@)
    }

    /// The orders that wait, the oldest first.
    pub closed spec fn waiting(self) -> Seq<OrderInner> {
        self.open_orders@
    }

    /// The orders that are done with, the oldest first.
    pub closed spec fn history(self) -> Seq<Order> {
        self.order_history@
    }

    /// Every fill, the oldest first.
    pub closed spec fn fill_log(self) -> Seq<Fill> {
        self.fills@
    }

    /// No symbol is held twice, waiting orders can wait, and orders in the history are done with.
    #[verifier::type_invariant]
    pub open spec fn wf(self) -> bool {
        &&& distinct_symbols(self.holds())
        &&& forall|i: int| 0 <= i < self.waiting().len() ==> can_wait(#[trigger] self.waiting()[i])
        &&& forall|i: int|
            0 <= i < self.history().len() ==> is_finished(#[trigger] self.history()[i])
    }

    /// An account with cash and nothing else.
    pub fn new(initial_cash: Decimal) -> (r: TradingState)
        ensures
            r.wf(),
            r.cash() == initial_cash,
            r.holds() == Seq::<(Seq<char>, PositionInner)>::empty(),
            r.waiting() == Seq::<OrderInner>::empty(),
            r.history() == Seq::<Order>::empty(),
            r.fill_log() == Seq::<Fill>::empty(),
    {
        let positions: Vec<PositionEntry> = Vec::new();
        assert(holdings(positions@) =~= Seq::empty());
        TradingState {
            cash: initial_cash,
            positions,
            open_orders: Vec::new(),
            order_history: Vec::new(),
            fills: Vec::new(),
        }
    }

    /// What placing an order would come to, or `None` where the arithmetic overflows.
    fn plan_order(
        &self,
        terms: &Terms,
        symbol: &String,
        quantity: Decimal,
        binance_book: &OrderBook,
        coindcx_book: &OrderBook,
    ) -> (r: Option<(Tally, Vec<Lot>, OrderStatus)>)
        ensures
            ({
                let p = placement(
                    *terms,
                    symbol@,
                    quantity,
                    self.cash(),
                    self.holds(),
                    *binance_book,
                    *coindcx_book,
                );
                &&& r is Some <==> p is Some
                &&& r matches Some((t, trades, status)) ==> p == Some((t, trades@, status))
            }),
    {
        proof {
            use_type_invariant(self);
        }
        let none = Decimal::zero();
        let (t, trades) = try_fill(
            terms,
            symbol,
            quantity,
            none,
            none,
            self.cash,
            &self.positions,
            binance_book,
            coindcx_book,
        )?;
        let rest = quantity.checked_sub(t.filled)?;
        let _ = average_price(t.cost, t.filled)?;
        let status = if rest.is_zero() {
            OrderStatus::Filled
        } else if terms.order_type == OrderType::Market {
            if none.less(t.filled) {
                OrderStatus::Filled
            } else {
                OrderStatus::Cancelled
            }
        } else if none.less(t.filled) {
            OrderStatus::PartiallyFilled
        } else {
            OrderStatus::Open
        };
        Some((t, trades, status))
    }

    /// Places an order against the two books.
    pub fn place_order(
        &mut self,
        side: Side,
        order_type: OrderType,
        symbol: String,
        limit_price: Option<Decimal>,
        quantity: Decimal,
        binance_book: &OrderBook,
        coindcx_book: &OrderBook,
        now_ms: u64,
    ) -> (r: MatchResult)
        requires
            placement(
                (Terms { side, order_type, limit: limit_price }),
                symbol@,
                quantity,
                old(self).cash(),
                old(self).holds(),
                *binance_book,
                *coindcx_book,
            ) is Some,
        ensures
            final(self).wf(),
            is_placed(
                *old(self),
                *final(self),
                r,
                (Terms { side, order_type, limit: limit_price }),
                symbol,
                quantity,
                *binance_book,
                *coindcx_book,
                now_ms,
            ),
    {
        proof {
            use_type_invariant(&*self);
        }
        let terms = Terms { side, order_type, limit: limit_price };
        let (t, trades, status) = self.plan_order(
            &terms,
            &symbol,
            quantity,
            binance_book,
            coindcx_book,
        ).unwrap();
        let mut whole = TradingState::new(Decimal::zero());
        std::mem::swap(&mut whole, self);
        let TradingState { cash: _, mut positions, mut open_orders, mut order_history, mut fills } =
            whole;
        let inner = OrderInner {
            id: fresh_id(),
            side,
            order_type,
            symbol,
            limit_price,
            total_qty: quantity,
            filled_qty: t.filled,
            cost_accum: t.cost,
            status,
            created_at: now_ms,
        };
        set_position(&mut positions, &inner.symbol, t.held);
        let new_fills = record_fills(&mut fills, &inner.id, side, &trades, now_ms);
        let order = inner.to_api(now_ms);
        let ghost (w, h) = (old(self).waiting(), old(self).history());
        if status == OrderStatus::Open || status == OrderStatus::PartiallyFilled {
            open_orders.push(inner);
        } else {
            order_history.push(order.clone());
        }
        assert forall|i: int| 0 <= i < open_orders@.len() implies can_wait(
            #[trigger] open_orders@[i],
        ) by {
            if i < w.len() {
                assert(open_orders@[i] == w[i]);
            }
        }
        assert forall|i: int| 0 <= i < order_history@.len() implies is_finished(
            #[trigger] order_history@[i],
        ) by {
            if i < h.len() {
                assert(order_history@[i] == h[i]);
            }
        }
        *self = TradingState { cash: t.cash, positions, open_orders, order_history, fills };
        MatchResult { order, new_fills }
    }

    /// Places an order, unless its arithmetic overflows: then nothing changes.
    pub fn try_place_order(
        &mut self,
        side: Side,
        order_type: OrderType,
        symbol: String,
        limit_price: Option<Decimal>,
        quantity: Decimal,
        binance_book: &OrderBook,
        coindcx_book: &OrderBook,
        now_ms: u64,
    ) -> (r: Option<MatchResult>)
        ensures
            final(self).wf(),
            r is Some <==> placement(
                (Terms { side, order_type, limit: limit_price }),
                symbol@,
                quantity,
                old(self).cash(),
                old(self).holds(),
                *binance_book,
                *coindcx_book,
            ) is Some,
            r is None ==> *final(self) == *old(self),
            r matches Some(m) ==> is_placed(
                *old(self),
                *final(self),
                m,
                (Terms { side, order_type, limit: limit_price }),
                symbol,
                quantity,
                *binance_book,
                *coindcx_book,
                now_ms,
            ),
    {
        proof {
            use_type_invariant(&*self);
        }
        let terms = Terms { side, order_type, limit: limit_price };
        if self.plan_order(&terms, &symbol, quantity, binance_book, coindcx_book).is_some() {
            Some(
                self.place_order(
                    side,
                    order_type,
                    symbol,
                    limit_price,
                    quantity,
                    binance_book,
                    coindcx_book,
                    now_ms,
                ),
            )
        } else {
            None
        }
    }

    /// Takes a waiting order back, as of the given time.
    pub fn cancel_order_at(&mut self, order_id: &str, now: u64) -> (r: Option<Order>)
        ensures
            final(self).wf(),
            is_cancelled(*old(self), *final(self), r, order_id@, now),
    {
        proof {
            use_type_invariant(&*self);
        }
        let wanted = String::from_str(order_id);
        let n: usize = self.open_orders.len();
        let mut at: usize = 0;
        while at < n && self.open_orders[at].id != wanted
            invariant
                at <= n,
                n == self.waiting().len(),
                *self == *old(self),
                wanted@ == order_id@,
                forall|j: int| 0 <= j < at ==> (#[trigger] self.waiting()[j]).id@ != order_id@,
            decreases n - at,
        {
            at += 1;
        }
        if at == n {
            return None;
        }
        let mut whole = TradingState::new(Decimal::zero());
        std::mem::swap(&mut whole, self);
        let TradingState { cash, positions, mut open_orders, mut order_history, fills } = whole;
        let ghost (w, h) = (open_orders@, order_history@);
        assert(can_wait(old(self).waiting()[at as int]));
        let mut inner = open_orders.remove(at);
        inner.status = OrderStatus::Cancelled;
        let order = inner.to_api(now);
        order_history.push(order.clone());
        assert forall|i: int| 0 <= i < open_orders@.len() implies can_wait(
            #[trigger] open_orders@[i],
        ) by {
            let j = if i < at { i } else { i + 1 };
            assert(open_orders@[i] == old(self).waiting()[j]);
        }
        assert forall|i: int| 0 <= i < order_history@.len() implies is_finished(
            #[trigger] order_history@[i],
        ) by {
            if i < h.len() {
                assert(order_history@[i] == old(self).history()[i]);
            }
        }
        *self = TradingState { cash, positions, open_orders, order_history, fills };
        assert(takes_back(
            old(self).waiting(),
            self.waiting(),
            order,
            order_id@,
            now,
            at as int,
        ));
        Some(order)
    }

    /// Takes a waiting order back.
    pub fn cancel_order(&mut self, order_id: &str) -> (r: Option<Order>)
        ensures
            final(self).wf(),
            exists|now: u64| is_cancelled(*old(self), *final(self), r, order_id@, now),
    {
        let now = now_ms();
        self.cancel_order_at(order_id, now)
    }

    /// The waiting orders as they are shown at the given time.
    pub fn open_orders_at(&self, now: u64) -> (r: Vec<Order>)
        ensures
            all_shown(r@, self.waiting(), now),
    {
        proof {
            use_type_invariant(self);
        }
        let mut r: Vec<Order> = Vec::new();
        for i in 0..self.open_orders.len()
            invariant
                self.wf(),
                r.len() == i,
                forall|j: int| 0 <= j < i ==> shows(#[trigger] r[j], self.waiting()[j], now),
        {
            assert(can_wait(self.waiting()[i as int]));
            r.push(self.open_orders[i].to_api(now));
        }
        r
    }

    /// The waiting orders as they are shown now.
    pub fn open_orders(&self) -> (r: Vec<Order>)
        ensures
            exists|now: u64| all_shown(r@, self.waiting(), now),
    {
        let now = now_ms();
        self.open_orders_at(now)
    }

    /// The orders that are done with.
    pub fn order_history(&self) -> (r: Vec<Order>)
        ensures
            r@ == self.history(),
    {
        let mut r: Vec<Order> = Vec::new();
        for i in 0..self.order_history.len()
            invariant
                r@ == self.order_history@.take(i as int),
        {
            r.push(self.order_history[i].clone());
        }
        assert(r@ =~= self.order_history@);
        r
    }

    /// Every fill.
    pub fn all_fills(&self) -> (r: Vec<Fill>)
        ensures
            r@ == self.fill_log(),
    {
        let mut r: Vec<Fill> = Vec::new();
        for i in 0..self.fills.len()
            invariant
                r@ == self.fills@.take(i as int),
        {
            r.push(self.fills[i].clone());
        }
        assert(r@ =~= self.fills@);
        r
    }
}

/// Whether orders are shown, one each and in their order, as of `now`.
pub open spec fn all_shown(shown: Seq<Order>, orders: Seq<OrderInner>, now: u64) -> bool {
    &&& shown.len() == orders.len()
    &&& forall|i: int| 0 <= i < shown.len() ==> shows(#[trigger] shown[i], orders[i], now)
}

/// Whether the order at `i`, the first with the id, leaves its place and is shown as cancelled.
pub open spec fn takes_back(
    before: Seq<OrderInner>,
    after: Seq<OrderInner>,
    order: Order,
    id: Seq<char>,
    now: u64,
    i: int,
) -> bool {
    &&& 0 <= i < before.len()
    &&& before[i].id@ == id
    &&& forall|j: int| 0 <= j < i ==> (#[trigger] before[j]).id@ != id
    &&& after == before.remove(i)
    &&& shows(order, (OrderInner { status: OrderStatus::Cancelled, ..before[i] }), now)
}

/// What taking an order back does. The first waiting order with the id leaves its place, is shown as
/// cancelled and joins the history; nothing else changes. Without such an order nothing happens.
pub open spec fn is_cancelled(
    before: TradingState,
    after: TradingState,
    r: Option<Order>,
    id: Seq<char>,
    now: u64,
) -> bool {
    let w = before.waiting();
    match r {
        None => {
            &&& after == before
            &&& forall|i: int| 0 <= i < w.len() ==> (#[trigger] w[i]).id@ != id
        },
        Some(order) => {
            &&& exists|i: int| takes_back(w, after.waiting(), order, id, now, i)
            &&& after.history() == before.history().push(order)
            &&& after.cash() == before.cash()
            &&& after.holds() == before.holds()
            &&& after.fill_log() == before.fill_log()
        },
    }
}

/// A waiting order that was tried again.
pub struct Retry {
    pub tally: Tally,
    pub trades: Seq<Lot>,
    /// The order as it stands then.
    pub order: OrderInner,
}

/// A waiting order that is tried again. Without a trade it stays as it is; with trades it is filled,
/// wholly or in part. `None` where the arithmetic overflows.
pub open spec fn retried(
    o: OrderInner,
    cash: Decimal,
    h: Seq<(Seq<char>, PositionInner)>,
    binance: OrderBook,
    coindcx: OrderBook,
) -> Option<Retry> {
    match attempted(
        o.terms(),
        o.symbol@,
        o.total_qty,
        o.filled_qty,
        o.cost_accum,
        cash,
        h,
        binance,
        coindcx,
    ) {
        None => None,
        Some((tally, trades)) => if trades.len() == 0 {
            Some(Retry { tally, trades, order: o })
        } else {
            match (difference(o.total_qty, tally.filled), average(tally.cost, tally.filled)) {
                (Some(rest), Some(_)) => {
                    let status = if rest.coefficient() == 0 {
                        OrderStatus::Filled
                    } else {
                        OrderStatus::PartiallyFilled
                    };
                    let order = OrderInner {
                        filled_qty: tally.filled,
                        cost_accum: tally.cost,
                        status,
                        ..o
                    };
                    Some(Retry { tally, trades, order })
                },
                _ => None,
            }
        },
    }
}

/// The account and the orders while waiting orders are tried again one by one.
pub struct LimitsRun {
    pub cash: Decimal,
    pub holds: Seq<(Seq<char>, PositionInner)>,
    /// The orders that keep waiting.
    pub waiting: Seq<OrderInner>,
    /// The orders that traded, with their trades.
    pub matched: Seq<(OrderInner, Seq<Lot>)>,
}

/// The run once one more order has been tried.
pub open spec fn after_retry(s: LimitsRun, x: Retry) -> LimitsRun {
    LimitsRun {
        cash: x.tally.cash,
        holds: with_held(s.holds, x.order.symbol@, x.tally.held),
        waiting: if x.trades.len() > 0 && x.order.status == OrderStatus::Filled {
            s.waiting
        } else {
            s.waiting.push(x.order)
        },
        matched: if x.trades.len() > 0 {
            s.matched.push((x.order, x.trades))
        } else {
            s.matched
        },
    }
}

/// Trying waiting orders again, the oldest first, each with the account that the one before it left.
/// `None` where the arithmetic overflows.
pub open spec fn limits_run(
    orders: Seq<OrderInner>,
    cash: Decimal,
    h: Seq<(Seq<char>, PositionInner)>,
    binance: OrderBook,
    coindcx: OrderBook,
) -> Option<LimitsRun>
    decreases orders.len(),
{
    if orders.len() == 0 {
        Some(LimitsRun { cash, holds: h, waiting: Seq::empty(), matched: Seq::empty() })
    } else {
        match limits_run(orders.drop_last(), cash, h, binance, coindcx) {
            None => None,
            Some(s) => match retried(orders.last(), s.cash, s.holds, binance, coindcx) {
                None => None,
                Some(x) => Some(after_retry(s, x)),
            },
        }
    }
}

/// Whether results show orders and their trades, one each and in their order.
pub open spec fn results_show(
    r: Seq<MatchResult>,
    matched: Seq<(OrderInner, Seq<Lot>)>,
    now: u64,
) -> bool {
    &&& r.len() == matched.len()
    &&& forall|i: int|
        0 <= i < r.len() ==> {
            &&& shows((#[trigger] r[i]).order, matched[i].0, now)
            &&& fills_show(r[i].new_fills@, matched[i].1, matched[i].0.id@, matched[i].0.side, now)
        }
}

/// The fills of results, one result after the other.
pub open spec fn fills_of(r: Seq<MatchResult>) -> Seq<Fill>
    decreases r.len(),
{
    if r.len() == 0 {
        Seq::empty()
    } else {
        fills_of(r.drop_last()) + r.last().new_fills@
    }
}

/// The orders of results that are wholly filled.
pub open spec fn filled_of(r: Seq<MatchResult>) -> Seq<Order>
    decreases r.len(),
{
    if r.len() == 0 {
        Seq::empty()
    } else if r.last().order.status == OrderStatus::Filled {
        filled_of(r.drop_last()).push(r.last().order)
    } else {
        filled_of(r.drop_last())
    }
}

/// What trying the waiting orders again does: the account and the waiting orders become those of the
/// run, each order that traded is reported with its fills, the fills are appended to the log and the
/// wholly filled orders to the history.
pub open spec fn is_rechecked(
    before: TradingState,
    after: TradingState,
    r: Seq<MatchResult>,
    binance: OrderBook,
    coindcx: OrderBook,
    now: u64,
) -> bool {
    match limits_run(before.waiting(), before.cash(), before.holds(), binance, coindcx) {
        None => false,
        Some(s) => {
            &&& after.cash() == s.cash
            &&& after.holds() == s.holds
            &&& after.waiting() == s.waiting
            &&& results_show(r, s.matched, now)
            &&& after.fill_log() == before.fill_log() + fills_of(r)
            &&& after.history() == before.history() + filled_of(r)
        },
    }
}

/// A run that overflows on some orders overflows on any that begin with them.
proof fn lemma_run_prefix(
    orders: Seq<OrderInner>,
    k: int,
    cash: Decimal,
    h: Seq<(Seq<char>, PositionInner)>,
    binance: OrderBook,
    coindcx: OrderBook,
)
    requires
        0 <= k <= orders.len(),
        limits_run(orders, cash, h, binance, coindcx) is Some,
    ensures
        limits_run(orders.take(k), cash, h, binance, coindcx) is Some,
    decreases orders.len() - k,
{
    if k == orders.len() {
        assert(orders.take(k) =~= orders);
    } else {
        lemma_run_prefix(orders, k + 1, cash, h, binance, coindcx);
        assert(orders.take(k + 1).drop_last() =~= orders.take(k));
    }
}

/// Tries a waiting order again, or gives `None` where the arithmetic overflows.
fn retry_order(
    o: &OrderInner,
    cash: Decimal,
    positions: &Vec<PositionEntry>,
    binance_book: &OrderBook,
    coindcx_book: &OrderBook,
) -> (r: Option<(Tally, Vec<Lot>, OrderStatus)>)
    requires
        distinct_symbols(holdings(positions@)),
    ensures
        ({
            let x = retried(*o, cash, holdings(positions@), *binance_book, *coindcx_book);
            &&& r is Some <==> x is Some
            &&& r matches Some((t, trades, status)) ==> {
                &&& x->0.tally == t
                &&& x->0.trades == trades@
                &&& x->0.order == if trades@.len() == 0 {
                    *o
                } else {
                    OrderInner { filled_qty: t.filled, cost_accum: t.cost, status, ..*o }
                }
            }
        }),
{
    let (t, trades) = try_fill(
        &o.asks(),
        &o.symbol,
        o.total_qty,
        o.filled_qty,
        o.cost_accum,
        cash,
        positions,
        binance_book,
        coindcx_book,
    )?;
    if trades.len() == 0 {
        return Some((t, trades, o.status));
    }
    let rest = o.total_qty.checked_sub(t.filled)?;
    let _ = average_price(t.cost, t.filled)?;
    let status = if rest.is_zero() {
        OrderStatus::Filled
    } else {
        OrderStatus::PartiallyFilled
    };
    Some((t, trades, status))
}

fn copy_positions(entries: &Vec<PositionEntry>) -> (r: Vec<PositionEntry>)
    ensures
        holdings(r@) == holdings(entries@),
{
    let mut r: Vec<PositionEntry> = Vec::new();
    for i in 0..entries.len()
        invariant
            holdings(r@) == holdings(entries@).take(i as int),
    {
        let ghost earlier = r@;
        r.push(
            PositionEntry { symbol: entries[i].symbol.clone(), position: entries[i].position },
        );
        proof {
            let e = entries@[i as int];
            assert(holdings(r@) =~= holdings(earlier).push((e.symbol@, e.position)));
            assert(holdings(entries@).take(i + 1) =~= holdings(entries@).take(i as int).push(
                holdings(entries@)[i as int],
            ));
        }
    }
    assert(holdings(r@) =~= holdings(entries@));
    r
}

impl TradingState {
    /// Whether the waiting orders can be tried again without overflow.
    fn limits_fit(&self, binance_book: &OrderBook, coindcx_book: &OrderBook) -> (r: bool)
        ensures
            r == (limits_run(
                self.waiting(),
                self.cash(),
                self.holds(),
                *binance_book,
                *coindcx_book,
            ) is Some),
    {
        proof {
            use_type_invariant(self);
        }
        let mut cash = self.cash;
        let mut positions = copy_positions(&self.positions);
        let ghost orders = self.waiting();
        for i in 0..self.open_orders.len()
            invariant
                orders == self.waiting(),
                distinct_symbols(holdings(positions@)),
                limits_run(
                    orders.take(i as int),
                    self.cash(),
                    self.holds(),
                    *binance_book,
                    *coindcx_book,
                ) matches Some(s) && s.cash == cash && s.holds == holdings(positions@),
        {
            let o: &OrderInner = &self.open_orders[i];
            proof {
                assert(orders.take(i + 1).drop_last() =~= orders.take(i as int));
            }
            match retry_order(o, cash, &positions, binance_book, coindcx_book) {
                None => {
                    proof {
                        if limits_run(
                            orders,
                            self.cash(),
                            self.holds(),
                            *binance_book,
                            *coindcx_book,
                        ) is Some {
                            lemma_run_prefix(
                                orders,
                                i + 1,
                                self.cash(),
                                self.holds(),
                                *binance_book,
                                *coindcx_book,
                            );
                        }
                    }
                    return false;
                },
                Some((t, _, _)) => {
                    cash = t.cash;
                    set_position(&mut positions, &o.symbol, t.held);
                },
            }
        }
        assert(orders.take(orders.len() as int) =~= orders);
        true
    }

    /// Tries the waiting orders again against the two books.
    pub fn check_limits(
        &mut self,
        binance_book: &OrderBook,
        coindcx_book: &OrderBook,
        now_ms: u64,
    ) -> (r: Vec<MatchResult>)
        requires
            limits_run(
                old(self).waiting(),
                old(self).cash(),
                old(self).holds(),
                *binance_book,
                *coindcx_book,
            ) is Some,
        ensures
            final(self).wf(),
            is_rechecked(*old(self), *final(self), r@, *binance_book, *coindcx_book, now_ms),
    {
        proof {
            use_type_invariant(&*self);
        }
        let mut whole = TradingState::new(Decimal::zero());
        std::mem::swap(&mut whole, self);
        let TradingState { mut cash, mut positions, mut open_orders, mut order_history, mut fills }
            = whole;
        let mut results: Vec<MatchResult> = Vec::new();
        let ghost before = *old(self);
        let ghost orders = open_orders@;
        let ghost (b, c) = (*binance_book, *coindcx_book);
        let ghost mut k: int = 0;
        let mut i: usize = 0;
        proof {
            assert(orders.skip(0) =~= orders);
            assert(Seq::<OrderInner>::empty() + orders =~= orders);
            assert(fills@ + Seq::<Fill>::empty() =~= fills@);
            assert(order_history@ + Seq::<Order>::empty() =~= order_history@);
            assert forall|j: int| 0 <= j < order_history@.len() implies is_finished(
                #[trigger] order_history@[j],
            ) by {
                assert(order_history@[j] == before.history()[j]);
            }
        }
        while i < open_orders.len()
            invariant
                0 <= k <= orders.len(),
                before.wf(),
                orders == before.waiting(),
                b == *binance_book,
                c == *coindcx_book,
                limits_run(orders, before.cash(), before.holds(), b, c) is Some,
                limits_run(orders.take(k), before.cash(), before.holds(), b, c) matches Some(s) && {
                    &&& s.cash == cash
                    &&& s.holds == holdings(positions@)
                    &&& i == s.waiting.len()
                    &&& open_orders@ == s.waiting + orders.skip(k)
                    &&& results_show(results@, s.matched, now_ms)
                },
                distinct_symbols(holdings(positions@)),
                forall|j: int| 0 <= j < open_orders@.len() ==> can_wait(#[trigger] open_orders@[j]),
                forall|j: int|
                    0 <= j < order_history@.len() ==> is_finished(#[trigger] order_history@[j]),
                fills@ == before.fill_log() + fills_of(results@),
                order_history@ == before.history() + filled_of(results@),
            decreases orders.len() - k,
        {
            let ghost s = limits_run(orders.take(k), before.cash(), before.holds(), b, c)->0;
            let ghost (all, earlier, log, hist) = (
                open_orders@,
                results@,
                fills@,
                order_history@,
            );
            proof {
                lemma_run_prefix(orders, k + 1, before.cash(), before.holds(), b, c);
                assert(orders.take(k + 1).drop_last() =~= orders.take(k));
                assert(can_wait(all[i as int]));
            }
            let mut order = open_orders.remove(i);
            assert(order == orders[k]);
            let ghost x = retried(order, s.cash, s.holds, b, c)->0;
            let (t, trades, status) = retry_order(
                &order,
                cash,
                &positions,
                binance_book,
                coindcx_book,
            ).unwrap();
            cash = t.cash;
            set_position(&mut positions, &order.symbol, t.held);
            let new_fills = record_fills(&mut fills, &order.id, order.side, &trades, now_ms);
            if new_fills.len() > 0 {
                order.filled_qty = t.filled;
                order.cost_accum = t.cost;
                order.status = status;
                let api = order.to_api(now_ms);
                if status == OrderStatus::Filled {
                    order_history.push(api.clone());
                    results.push(MatchResult { order: api, new_fills });
                    proof {
                        k = k + 1;
                        assert(open_orders@ =~= s.waiting + orders.skip(k));
                        assert(results@.drop_last() =~= earlier);
                        assert(order_history@ =~= before.history() + filled_of(results@));
                        assert(fills@ =~= before.fill_log() + fills_of(results@));
                    }
                } else {
                    open_orders.insert(i, order);
                    results.push(MatchResult { order: api, new_fills });
                    i += 1;
                    proof {
                        k = k + 1;
                        assert(open_orders@ =~= s.waiting.push(x.order) + orders.skip(k));
                        assert(results@.drop_last() =~= earlier);
                        assert(fills@ =~= before.fill_log() + fills_of(results@));
                    }
                }
            } else {
                open_orders.insert(i, order);
                i += 1;
                proof {
                    k = k + 1;
                    assert(open_orders@ =~= s.waiting.push(x.order) + orders.skip(k));
                    assert(fills@ =~= log);
                }
            }
        }
        proof {
            assert(k == orders.len());
            assert(orders.take(k) =~= orders);
            assert(open_orders@ =~= limits_run(
                orders,
                before.cash(),
                before.holds(),
                b,
                c,
            )->0.waiting);
        }
        *self = TradingState { cash, positions, open_orders, order_history, fills };
        results
    }

    /// Tries the waiting orders again, unless the arithmetic overflows: then nothing changes.
    pub fn try_check_limits(
        &mut self,
        binance_book: &OrderBook,
        coindcx_book: &OrderBook,
        now_ms: u64,
    ) -> (r: Option<Vec<MatchResult>>)
        ensures
            final(self).wf(),
            r is Some <==> limits_run(
                old(self).waiting(),
                old(self).cash(),
                old(self).holds(),
                *binance_book,
                *coindcx_book,
            ) is Some,
            r is None ==> *final(self) == *old(self),
            r matches Some(m) ==> is_rechecked(
                *old(self),
                *final(self),
                m@,
                *binance_book,
                *coindcx_book,
                now_ms,
            ),
    {
        proof {
            use_type_invariant(&*self);
        }
        if self.limits_fit(binance_book, coindcx_book) {
            Some(self.check_limits(binance_book, coindcx_book, now_ms))
        } else {
            None
        }
    }
}

/// The realized gains of all positions, added up one after the other. `None` where a sum overflows.
pub open spec fn total_realized(h: Seq<(Seq<char>, PositionInner)>) -> Option<Decimal>
    decreases h.len(),
{
    if h.len() == 0 {
        Some(zero())
    } else {
        plus(total_realized(h.drop_last()), Some(h.last().1.realized_pnl))
    }
}

/// The positions of which something is held.
pub open spec fn open_positions(h: Seq<(Seq<char>, PositionInner)>) -> Seq<
    (Seq<char>, PositionInner),
> {
    h.filter(|x: (Seq<char>, PositionInner)| x.1.qty.coefficient() != 0)
}

/// Whether `p` shows a position.
pub open spec fn position_shows(p: Position, x: (Seq<char>, PositionInner)) -> bool {
    &&& p.symbol@ == x.0
    &&& p.quantity@ == short_text(x.1.qty)
    &&& p.avg_cost@ == short_text(x.1.avg_cost)
    &&& p.realized_pnl@ == short_text(x.1.realized_pnl)
}

/// Whether positions are shown, one each and in their order.
pub open spec fn positions_show(
    shown: Seq<Position>,
    h: Seq<(Seq<char>, PositionInner)>,
) -> bool {
    &&& shown.len() == h.len()
    &&& forall|i: int| 0 <= i < shown.len() ==> position_shows(#[trigger] shown[i], h[i])
}

/// Whether a snapshot shows an account: its cash, what it holds and what it has earned. A position
/// that is closed is not listed, and what it earned still counts.
pub open spec fn snapshot_shows(r: PortfolioSnapshot, st: TradingState) -> bool {
    &&& r.cash@ == short_text(st.cash())
    &&& positions_show(r.positions@, open_positions(st.holds()))
    &&& Some(r.total_realized_pnl@) == short_text_of(total_realized(st.holds()))
}

impl TradingState {
    /// The realized gains added up, or `None` where a sum overflows.
    fn sum_realized(&self) -> (r: Option<Decimal>)
        ensures
            r == total_realized(self.holds()),
    {
        let mut total = Decimal::zero();
        let ghost h = self.holds();
        for i in 0..self.positions.len()
            invariant
                h == self.holds(),
                total_realized(h.take(i as int)) == Some(total),
        {
            proof {
                assert(h.take(i + 1).drop_last() =~= h.take(i as int));
                assert(h[i as int].1 == self.positions@[i as int].position);
            }
            match total.checked_add(self.positions[i].position.realized_pnl) {
                Some(next) => {
                    total = next;
                },
                None => {
                    proof {
                        lemma_total_prefix(h, i + 1);
                    }
                    return None;
                },
            }
        }
        assert(h.take(h.len() as int) =~= h);
        Some(total)
    }

    /// The account as it is shown.
    pub fn portfolio_snapshot(&self) -> (r: PortfolioSnapshot)
        requires
            total_realized(self.holds()) is Some,
        ensures
            snapshot_shows(r, *self),
    {
        let mut positions: Vec<Position> = Vec::new();
        let ghost h = self.holds();
        proof {
            reveal(Seq::filter);
            assert(open_positions(h.take(0)) =~= Seq::empty());
        }
        for i in 0..self.positions.len()
            invariant
                h == self.holds(),
                positions_show(positions@, open_positions(h.take(i as int))),
        {
            let ghost shown = positions@;
            let p = self.positions[i].position;
            proof {
                reveal(Seq::filter);
                assert(h.take(i + 1).drop_last() =~= h.take(i as int));
                assert(h[i as int] == (self.positions@[i as int].symbol@, p));
            }
            if !p.qty.is_zero() {
                positions.push(
                    Position {
                        symbol: self.positions[i].symbol.clone(),
                        quantity: p.qty.to_text(),
                        avg_cost: p.avg_cost.to_text(),
                        realized_pnl: p.realized_pnl.to_text(),
                    },
                );
                proof {
                    let old_list = open_positions(h.take(i as int));
                    let list = open_positions(h.take(i + 1));
                    assert(list =~= old_list.push(h[i as int]));
                    assert forall|j: int| 0 <= j < positions@.len() implies position_shows(
                        #[trigger] positions@[j],
                        list[j],
                    ) by {
                        if j < shown.len() {
                            assert(positions@[j] == shown[j]);
                        }
                    }
                }
            }
        }
        assert(h.take(h.len() as int) =~= h);
        let total = self.sum_realized().unwrap();
        PortfolioSnapshot {
            cash: self.cash.to_text(),
            positions,
            total_realized_pnl: total.to_text(),
        }
    }

    /// The account as it is shown, or `None` where its realized gains cannot be added up.
    pub fn try_portfolio_snapshot(&self) -> (r: Option<PortfolioSnapshot>)
        ensures
            r is Some <==> total_realized(self.holds()) is Some,
            r matches Some(snapshot) ==> snapshot_shows(snapshot, *self),
    {
        if self.sum_realized().is_some() {
            Some(self.portfolio_snapshot())
        } else {
            None
        }
    }
}

/// A sum that overflows on some positions overflows on any list that begins with them.
proof fn lemma_total_prefix(h: Seq<(Seq<char>, PositionInner)>, k: int)
    requires
        0 <= k <= h.len(),
        total_realized(h.take(k)) is None,
    ensures
        total_realized(h) is None,
    decreases h.len() - k,
{
    if k == h.len() {
        assert(h.take(k) =~= h);
    } else {
        assert(h.take(k + 1).drop_last() =~= h.take(k));
        lemma_total_prefix(h, k + 1);
    }
}

} // verus!
