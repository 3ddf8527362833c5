//! Filling an order from what two venues offer.

use crate::book::{law_top_levels, Level, OrderBook};
use crate::decimal::{
    difference, difference_is_exact, group_decimal, law_negated_value, law_sign_of_value,
    lemma_outcomes_valid, minus, negated, one_units, plus, product, product_is_exact, smaller, sum,
    sum_is_exact, zero, Decimal,
};
use crate::position::{
    fill_held, fills_exactly, flat, held_after, law_exact_fill_moves_quantity,
    law_fill_is_paid_for, lemma_one_units, moves_exactly, sunk, valid_position, PositionInner,
};
use crate::wants::{
    can_choose, chosen, cost_of_choice, cost_of_want, lemma_bounds, lemma_front_is_cheapest,
    lemma_front_is_dearest,
};
use vstd::prelude::*;

verus! {

/// Which way an order trades.
#[derive(Clone, Copy, Debug, PartialEq, Eq, Structural)]
pub enum Side {
    Buy,
    Sell,
}

/// Whether an order takes any price or has a limit.
#[derive(Clone, Copy, Debug, PartialEq, Eq, Structural)]
pub enum OrderType {
    Market,
    Limit,
}

/// A venue.
#[derive(Clone, Copy, Debug, PartialEq, Eq, Structural)]
pub enum Venue {
    Binance,
    Coindcx,
}

/// The name of a venue.
pub open spec fn venue_name(v: Venue) -> Seq<char> {
    match v {
        Venue::Binance => "binance"@,
        Venue::Coindcx => "coindcx"@,
    }
}

impl Venue {
    /// The name of the venue.
    pub fn name(self) -> (r: &'static str)
        ensures
            r@ == venue_name(self),
    {
        match self {
            Venue::Binance => "binance",
            Venue::Coindcx => "coindcx",
        }
    }
}

/// How many levels of each book an order can reach.
pub const FILL_DEPTH: usize = 50;

/// A quantity at a price on a venue: offered there, or taken there.
#[derive(Clone, Copy, Debug)]
pub struct Lot {
    pub price: Decimal,
    pub qty: Decimal,
    pub venue: Venue,
}

/// What an order asks for.
#[derive(Clone, Copy, Debug)]
pub struct Terms {
    pub side: Side,
    pub order_type: OrderType,
    pub limit: Option<Decimal>,
}

/// The running account of an order that is being filled.
#[derive(Clone, Copy, Debug)]
pub struct Tally {
    /// What is still wanted.
    pub remaining: Decimal,
    /// What the order has got in all.
    pub filled: Decimal,
    /// What that has cost in all.
    pub cost: Decimal,
    /// The cash of the account.
    pub cash: Decimal,
    /// What is held of the symbol of the order.
    pub held: Option<PositionInner>,
}

/// The levels of a venue as lots.
pub open spec fn lots_of(levels: Seq<Level>, venue: Venue) -> Seq<Lot> {
    levels.map_values(|l: Level| Lot { price: l.0, qty: l.1, venue })
}

/// Whether the price of `x` is better than that of `y` for an order of the given side.
pub open spec fn is_better(side: Side, x: Lot, y: Lot) -> bool {
    match side {
        Side::Buy => x.price.units() < y.price.units(),
        Side::Sell => x.price.units() > y.price.units(),
    }
}

/// Two lists of lots as one, the best price first; at equal prices the first list comes first.
pub open spec fn merged(side: Side, a: Seq<Lot>, b: Seq<Lot>) -> Seq<Lot>
    decreases a.len() + b.len(),
{
    if a.len() == 0 {
        b
    } else if b.len() == 0 {
        a
    } else if is_better(side, b.first(), a.first()) {
        seq![b.first()] + merged(side, a, b.drop_first())
    } else {
        seq![a.first()] + merged(side, a.drop_first(), b)
    }
}

/// What the two venues offer to an order, the best price first. A buyer is offered the asks, a
/// seller the bids.
pub open spec fn offers(side: Side, binance: OrderBook, coindcx: OrderBook) -> Seq<Lot> {
    match side {
        Side::Buy => merged(
            side,
            lots_of(binance.top_asks(FILL_DEPTH as int), Venue::Binance),
            lots_of(coindcx.top_asks(FILL_DEPTH as int), Venue::Coindcx),
        ),
        Side::Sell => merged(
            side,
            lots_of(binance.top_bids(FILL_DEPTH as int), Venue::Binance),
            lots_of(coindcx.top_bids(FILL_DEPTH as int), Venue::Coindcx),
        ),
    }
}

/// Whether a price is beyond the limit of an order.
pub open spec fn beyond_limit(terms: Terms, price: Decimal) -> bool {
    match (terms.order_type, terms.limit) {
        (OrderType::Limit, Some(limit)) => match terms.side {
            Side::Buy => price.units() > limit.units(),
            Side::Sell => price.units() < limit.units(),
        },
        _ => false,
    }
}

/// The part of a lot that an order takes.
pub open spec fn taken(t: Tally, lot: Lot) -> Lot {
    Lot { price: lot.price, qty: smaller(t.remaining, lot.qty), venue: lot.venue }
}

/// The account after a lot has been taken. `None` where the arithmetic overflows.
pub open spec fn after_taking(side: Side, t: Tally, lot: Lot) -> Option<Tally> {
    let qty = taken(t, lot).qty;
    let paid = product(lot.price, qty);
    let cash = match side {
        Side::Buy => minus(Some(t.cash), paid),
        Side::Sell => plus(Some(t.cash), paid),
    };
    let signed_qty = match side {
        Side::Buy => qty,
        Side::Sell => negated(qty),
    };
    match (
        difference(t.remaining, qty),
        sum(t.filled, qty),
        plus(Some(t.cost), paid),
        cash,
        held_after(t.held, signed_qty, lot.price),
    ) {
        (Some(remaining), Some(filled), Some(cost), Some(cash), Some(held)) => Some(
            Tally { remaining, filled, cost, cash, held },
        ),
        _ => None,
    }
}

/// Whether an order takes no more of a list of lots: nothing is left of the order or of the list, or
/// the next price is beyond the limit.
pub open spec fn is_done(terms: Terms, lots: Seq<Lot>, t: Tally) -> bool {
    lots.len() == 0 || t.remaining.coefficient() == 0 || beyond_limit(terms, lots.first().price)
}

/// The account after an order has gone through a list of lots, and the lots that it took. `None`
/// where the arithmetic overflows.
pub open spec fn walked(terms: Terms, lots: Seq<Lot>, t: Tally) -> Option<(Tally, Seq<Lot>)>
    decreases lots.len(),
{
    if is_done(terms, lots, t) {
        Some((t, Seq::empty()))
    } else {
        match after_taking(terms.side, t, lots.first()) {
            None => None,
            Some(next) => match walked(terms, lots.drop_first(), next) {
                None => None,
                Some((end, rest)) => Some((end, seq![taken(t, lots.first())] + rest)),
            },
        }
    }
}

/// Levels as lots.
fn tag_levels(levels: &Vec<Level>, venue: Venue) -> (r: Vec<Lot>)
    ensures
        r@ == lots_of(levels@, venue),
{
    let mut r: Vec<Lot> = Vec::new();
    for i in 0..levels.len()
        invariant
            r@ == lots_of(levels@.take(i as int), venue),
    {
        let (price, qty) = levels[i];
        r.push(Lot { price, qty, venue });
        assert(r@ =~= lots_of(levels@.take(i + 1), venue));
    }
    assert(levels@.take(levels.len() as int) =~= levels@);
    r
}

/// Whether the price of `x` is better than that of `y`.
fn better(side: Side, x: Lot, y: Lot) -> (r: bool)
    ensures
        r == is_better(side, x, y),
{
    match side {
        Side::Buy => x.price.less(y.price),
        Side::Sell => y.price.less(x.price),
    }
}

/// Two lists of lots as one, the best price first.
pub fn merge_lots(side: Side, a: &Vec<Lot>, b: &Vec<Lot>) -> (r: Vec<Lot>)
    ensures
        r@ == merged(side, a@, b@),
{
    let mut r: Vec<Lot> = Vec::new();
    let mut i: usize = 0;
    let mut j: usize = 0;
    assert(a@.skip(0) =~= a@);
    assert(b@.skip(0) =~= b@);
    while i < a.len() && j < b.len()
        invariant
            i <= a.len(),
            j <= b.len(),
            r@ + merged(side, a@.skip(i as int), b@.skip(j as int)) == merged(side, a@, b@),
        decreases a.len() - i + b.len() - j,
    {
        let ghost before = r@;
        let ghost (x, y) = (a@.skip(i as int), b@.skip(j as int));
        assert(x.drop_first() =~= a@.skip(i + 1));
        assert(y.drop_first() =~= b@.skip(j + 1));
        if better(side, b[j], a[i]) {
            r.push(b[j]);
            j += 1;
            assert(r@ + merged(side, x, y.drop_first()) =~= before + merged(side, x, y));
        } else {
            r.push(a[i]);
            i += 1;
            assert(r@ + merged(side, x.drop_first(), y) =~= before + merged(side, x, y));
        }
    }
    while i < a.len()
        invariant
            i <= a.len(),
            j <= b.len(),
            i < a.len() ==> j == b.len(),
            r@ + merged(side, a@.skip(i as int), b@.skip(j as int)) == merged(side, a@, b@),
        decreases a.len() - i,
    {
        let ghost before = r@;
        let ghost (x, y) = (a@.skip(i as int), b@.skip(j as int));
        r.push(a[i]);
        i += 1;
        assert(r@ + merged(side, a@.skip(i as int), y) =~= before + x) by {
            assert(merged(side, a@.skip(i as int), y) =~= a@.skip(i as int));
        }
    }
    while j < b.len()
        invariant
            i == a.len(),
            j <= b.len(),
            r@ + merged(side, a@.skip(i as int), b@.skip(j as int)) == merged(side, a@, b@),
        decreases b.len() - j,
    {
        let ghost before = r@;
        let ghost (x, y) = (a@.skip(i as int), b@.skip(j as int));
        r.push(b[j]);
        j += 1;
        assert(r@ + merged(side, x, b@.skip(j as int)) =~= before + y);
    }
    assert(r@ + merged(side, a@.skip(i as int), b@.skip(j as int)) =~= r@);
    r
}

/// What the two venues offer to an order.
pub fn collect_offers(side: Side, binance: &OrderBook, coindcx: &OrderBook) -> (r: Vec<Lot>)
    ensures
        r@ == offers(side, *binance, *coindcx),
{
    let (bin_bids, bin_asks) = binance.top(FILL_DEPTH);
    let (cdx_bids, cdx_asks) = coindcx.top(FILL_DEPTH);
    match side {
        Side::Buy => merge_lots(
            side,
            &tag_levels(&bin_asks, Venue::Binance),
            &tag_levels(&cdx_asks, Venue::Coindcx),
        ),
        Side::Sell => merge_lots(
            side,
            &tag_levels(&bin_bids, Venue::Binance),
            &tag_levels(&cdx_bids, Venue::Coindcx),
        ),
    }
}

impl Terms {
    /// Whether a price is beyond the limit.
    pub fn stops_at(&self, price: Decimal) -> (r: bool)
        ensures
            r == beyond_limit(*self, price),
    {
        match (self.order_type, self.limit) {
            (OrderType::Limit, Some(limit)) => match self.side {
                Side::Buy => limit.less(price),
                Side::Sell => price.less(limit),
            },
            _ => false,
        }
    }
}

impl Tally {
    /// Takes what is wanted of a lot, or gives `None` where the arithmetic overflows.
    pub fn take(self, side: Side, lot: Lot) -> (r: Option<Tally>)
        ensures
            r == after_taking(side, self, lot),
    {
        let qty = self.remaining.min(lot.qty);
        let paid = lot.price.checked_mul(qty)?;
        let filled = self.filled.checked_add(qty)?;
        let cost = self.cost.checked_add(paid)?;
        let remaining = self.remaining.checked_sub(qty)?;
        let (cash, signed_qty) = match side {
            Side::Buy => (self.cash.checked_sub(paid)?, qty),
            Side::Sell => (self.cash.checked_add(paid)?, qty.negate()),
        };
        let held = fill_held(self.held, signed_qty, lot.price)?;
        Some(Tally { remaining, filled, cost, cash, held })
    }
}

/// Goes through a list of lots, or gives `None` where the arithmetic overflows.
pub fn walk_lots(terms: &Terms, lots: &Vec<Lot>, start: Tally) -> (r: Option<(Tally, Vec<Lot>)>)
    ensures
        r is Some <==> walked(*terms, lots@, start) is Some,
        r matches Some((end, trades)) ==> walked(*terms, lots@, start) == Some((end, trades@)),
{
    let mut t = start;
    let mut trades: Vec<Lot> = Vec::new();
    let mut i: usize = 0;
    let ghost whole = walked(*terms, lots@, start);
    assert(lots@.skip(0) =~= lots@);
    assert(walked(*terms, lots@.skip(0), t) matches Some((end, rest)) ==> trades@ + rest =~= rest);
    while i < lots.len() && !t.remaining.is_zero() && !terms.stops_at(lots[i].price)
        invariant
            i <= lots.len(),
            whole == walked(*terms, lots@, start),
            match walked(*terms, lots@.skip(i as int), t) {
                None => whole is None,
                Some((end, rest)) => whole == Some((end, trades@ + rest)),
            },
        decreases lots.len() - i,
    {
        let lot = lots[i];
        let ghost here = lots@.skip(i as int);
        let ghost before = trades@;
        assert(here.drop_first() =~= lots@.skip(i + 1));
        assert(here.first() == lot);
        let qty = t.remaining.min(lot.qty);
        let next = match t.take(terms.side, lot) {
            Some(next) => next,
            None => {
                return None;
            },
        };
        trades.push(Lot { price: lot.price, qty, venue: lot.venue });
        proof {
            if let Some((end, rest)) = walked(*terms, here.drop_first(), next) {
                assert(trades@ + rest =~= before + (seq![taken(t, lot)] + rest));
            }
        }
        t = next;
        i += 1;
    }
    assert(trades@ + Seq::<Lot>::empty() =~= trades@);
    Some((t, trades))
}

/// Whether no lot has a better price than one before it.
pub open spec fn best_first(side: Side, lots: Seq<Lot>) -> bool {
    forall|i: int, j: int| 0 <= i < j < lots.len() ==> !is_better(side, lots[j], lots[i])
}

/// Merging two lists that each have the best price first gives a list that has, with the lots of
/// both and no others.
pub proof fn law_merging_keeps_order(side: Side, a: Seq<Lot>, b: Seq<Lot>)
    requires
        best_first(side, a),
        best_first(side, b),
    ensures
        best_first(side, merged(side, a, b)),
        merged(side, a, b).to_multiset() == a.to_multiset().add(b.to_multiset()),
        merged(side, a, b).len() == a.len() + b.len(),
    decreases a.len() + b.len(),
{
    broadcast use vstd::seq_lib::group_to_multiset_ensures;

    let m = merged(side, a, b);
    if a.len() == 0 {
        assert(a =~= Seq::empty());
        assert(m.to_multiset() =~= a.to_multiset().add(b.to_multiset()));
    } else if b.len() == 0 {
        assert(b =~= Seq::empty());
        assert(m.to_multiset() =~= a.to_multiset().add(b.to_multiset()));
    } else {
        let from_b = is_better(side, b.first(), a.first());
        let head = if from_b { b.first() } else { a.first() };
        let x = if from_b { a } else { a.drop_first() };
        let y = if from_b { b.drop_first() } else { b };
        assert(best_first(side, x));
        assert(best_first(side, y));
        law_merging_keeps_order(side, x, y);
        let rest = merged(side, x, y);
        assert(m == seq![head] + rest);
        assert(m.drop_first() =~= rest);
        assert forall|j: int| 0 <= j < rest.len() implies !is_better(side, rest[j], head) by {
            assert(rest.to_multiset().count(rest[j]) > 0) by {
                rest.to_multiset_ensures();
                assert(rest.contains(rest[j]));
            }
            assert(x.contains(rest[j]) || y.contains(rest[j])) by {
                x.to_multiset_ensures();
                y.to_multiset_ensures();
            }
            if x.contains(rest[j]) {
                let k = choose|k: int| 0 <= k < x.len() && x[k] == rest[j];
                if from_b {
                    assert(k > 0 ==> !is_better(side, a[k], a[0]));
                } else {
                    assert(!is_better(side, a[k + 1], a[0]));
                }
            } else {
                let k = choose|k: int| 0 <= k < y.len() && y[k] == rest[j];
                if from_b {
                    assert(!is_better(side, b[k + 1], b[0]));
                } else {
                    assert(k > 0 ==> !is_better(side, b[k], b[0]));
                }
            }
        }
        assert forall|i: int, j: int| 0 <= i < j < m.len() implies !is_better(
            side,
            m[j],
            m[i],
        ) by {
            assert(m[j] == rest[j - 1]);
            if i > 0 {
                assert(m[i] == rest[i - 1]);
            }
        }
        assert(a =~= seq![a.first()] + a.drop_first());
        assert(b =~= seq![b.first()] + b.drop_first());
        vstd::seq_lib::lemma_multiset_commutative(seq![head], rest);
        if from_b {
            vstd::seq_lib::lemma_multiset_commutative(seq![head], y);
        } else {
            vstd::seq_lib::lemma_multiset_commutative(seq![head], x);
        }
        assert(m.to_multiset() =~= a.to_multiset().add(b.to_multiset()));
    }
}

/// What the venues offer has the best price first.
pub proof fn law_offers_are_best_first(side: Side, binance: OrderBook, coindcx: OrderBook)
    requires
        binance.wf(),
        coindcx.wf(),
    ensures
        best_first(side, offers(side, binance, coindcx)),
{
    let n = FILL_DEPTH as int;
    law_top_levels(binance, n, n);
    law_top_levels(coindcx, n, n);
    match side {
        Side::Buy => {
            law_merging_keeps_order(
                side,
                lots_of(binance.top_asks(n), Venue::Binance),
                lots_of(coindcx.top_asks(n), Venue::Coindcx),
            );
        },
        Side::Sell => {
            law_merging_keeps_order(
                side,
                lots_of(binance.top_bids(n), Venue::Binance),
                lots_of(coindcx.top_bids(n), Venue::Coindcx),
            );
        },
    }
}

/// An order takes the lots from the front of the list, each at its own price and venue and never
/// more of it than is offered, and none at a price beyond its limit.
pub proof fn law_trades_follow_the_offers(terms: Terms, lots: Seq<Lot>, t: Tally)
    requires
        walked(terms, lots, t) is Some,
    ensures
        ({
            let trades = (walked(terms, lots, t)->0).1;
            &&& trades.len() <= lots.len()
            &&& forall|i: int|
                0 <= i < trades.len() ==> {
                    &&& (#[trigger] trades[i]).price == lots[i].price
                    &&& trades[i].venue == lots[i].venue
                    &&& trades[i].qty.units() <= lots[i].qty.units()
                    &&& !beyond_limit(terms, trades[i].price)
                }
        }),
    decreases lots.len(),
{
    if !is_done(terms, lots, t) {
        let next = after_taking(terms.side, t, lots.first())->0;
        let rest = lots.drop_first();
        law_trades_follow_the_offers(terms, rest, next);
        let inner = (walked(terms, rest, next)->0).1;
        let trades = (walked(terms, lots, t)->0).1;
        assert(trades == seq![taken(t, lots.first())] + inner);
        assert forall|i: int| 0 <= i < trades.len() implies {
            &&& (#[trigger] trades[i]).price == lots[i].price
            &&& trades[i].venue == lots[i].venue
            &&& trades[i].qty.units() <= lots[i].qty.units()
            &&& !beyond_limit(terms, trades[i].price)
        } by {
            if i > 0 {
                assert(trades[i] == inner[i - 1]);
                assert(lots[i] == rest[i - 1]);
            }
        }
    }
}

/// The prices of the trades of an order never improve from one to the next.
pub proof fn law_trades_are_best_first(terms: Terms, lots: Seq<Lot>, t: Tally)
    requires
        best_first(terms.side, lots),
        walked(terms, lots, t) is Some,
    ensures
        best_first(terms.side, (walked(terms, lots, t)->0).1),
{
    law_trades_follow_the_offers(terms, lots, t);
    let trades = (walked(terms, lots, t)->0).1;
    assert forall|i: int, j: int| 0 <= i < j < trades.len() implies !is_better(
        terms.side,
        trades[j],
        trades[i],
    ) by {
        assert(!is_better(terms.side, lots[j], lots[i]));
    }
}

/// An order leaves off only where nothing of it remains, nothing more is offered, or the next offer
/// is beyond its limit.
pub proof fn law_order_takes_what_it_can(terms: Terms, lots: Seq<Lot>, t: Tally)
    requires
        walked(terms, lots, t) is Some,
    ensures
        ({
            let (end, trades) = walked(terms, lots, t)->0;
            is_done(terms, lots.skip(trades.len() as int), end)
        }),
    decreases lots.len(),
{
    if is_done(terms, lots, t) {
        assert(lots.skip(0) =~= lots);
    } else {
        let next = after_taking(terms.side, t, lots.first())->0;
        let rest = lots.drop_first();
        law_order_takes_what_it_can(terms, rest, next);
        let inner = (walked(terms, rest, next)->0).1;
        law_trades_follow_the_offers(terms, rest, next);
        assert(rest.skip(inner.len() as int) =~= lots.skip(inner.len() as int + 1));
    }
}

/// Whether the decimals of an account are decimals.
pub open spec fn valid_tally(t: Tally) -> bool {
    t.remaining.valid() && t.filled.valid() && t.cost.valid() && t.cash.valid()
}

/// Whether the decimals of lots are decimals.
pub open spec fn valid_lots(lots: Seq<Lot>) -> bool {
    forall|i: int| 0 <= i < lots.len() ==> (#[trigger] lots[i]).price.valid() && lots[i].qty.valid()
}

/// Whether taking a lot adds and subtracts without rounding.
pub open spec fn adds_exactly(side: Side, t: Tally, lot: Lot) -> bool {
    let qty = taken(t, lot).qty;
    &&& difference_is_exact(t.remaining, qty)
    &&& sum_is_exact(t.filled, qty)
    &&& product(lot.price, qty) matches Some(paid) ==> {
        &&& sum_is_exact(t.cost, paid)
        &&& side == Side::Buy ==> difference_is_exact(t.cash, paid)
        &&& side == Side::Sell ==> sum_is_exact(t.cash, paid)
    }
}

/// Whether an order goes through a list of lots without any rounding in its sums.
pub open spec fn walks_exactly(terms: Terms, lots: Seq<Lot>, t: Tally) -> bool
    decreases lots.len(),
{
    is_done(terms, lots, t) || {
        &&& adds_exactly(terms.side, t, lots.first())
        &&& after_taking(terms.side, t, lots.first()) matches Some(next) ==> walks_exactly(
            terms,
            lots.drop_first(),
            next,
        )
    }
}

/// The quantities of trades, added up.
pub open spec fn total_units(trades: Seq<Lot>) -> int
    decreases trades.len(),
{
    if trades.len() == 0 {
        0
    } else {
        trades.first().qty.units() + total_units(trades.drop_first())
    }
}

/// Where no sum is rounded: what an order gets is the quantities of its trades; what it has got and
/// what it still wants add up to the same as before; it never gets more than it wants; and the cash
/// changes by as much as the cost of the order grows, down for a buyer and up for a seller.
pub proof fn law_nothing_is_lost(terms: Terms, lots: Seq<Lot>, t: Tally)
    requires
        valid_tally(t),
        valid_lots(lots),
        walks_exactly(terms, lots, t),
        walked(terms, lots, t) is Some,
    ensures
        ({
            let (end, trades) = walked(terms, lots, t)->0;
            &&& valid_tally(end)
            &&& end.filled.units() == t.filled.units() + total_units(trades)
            &&& end.filled.units() + end.remaining.units() == t.filled.units()
                + t.remaining.units()
            &&& t.remaining.units() >= 0 ==> end.remaining.units() >= 0
            &&& terms.side == Side::Buy ==> end.cash.units() + end.cost.units() == t.cash.units()
                + t.cost.units()
            &&& terms.side == Side::Sell ==> end.cash.units() - end.cost.units() == t.cash.units()
                - t.cost.units()
        }),
    decreases lots.len(),
{
    if !is_done(terms, lots, t) {
        let lot = lots.first();
        let qty = taken(t, lot).qty;
        let next = after_taking(terms.side, t, lot)->0;
        let rest = lots.drop_first();
        assert(lot == lots[0]);
        assert(valid_lots(rest)) by {
            assert forall|i: int| 0 <= i < rest.len() implies (#[trigger] rest[i]).price.valid()
                && rest[i].qty.valid() by {
                assert(rest[i] == lots[i + 1]);
            }
        }
        lemma_outcomes_valid(lot.price, qty);
        let paid = product(lot.price, qty)->0;
        lemma_outcomes_valid(t.remaining, qty);
        lemma_outcomes_valid(t.filled, qty);
        lemma_outcomes_valid(t.cost, paid);
        lemma_outcomes_valid(t.cash, paid);
        law_nothing_is_lost(terms, rest, next);
        let inner = (walked(terms, rest, next)->0).1;
        let trades = (walked(terms, lots, t)->0).1;
        assert(trades.drop_first() =~= inner);
        assert(trades.first() == taken(t, lot));
    }
}

/// Whether every lot offers something.
pub open spec fn positive_lots(lots: Seq<Lot>) -> bool {
    forall|i: int| 0 <= i < lots.len() ==> (#[trigger] lots[i]).qty.units() > 0
}

/// Where no sum is rounded and every lot offers something, an order that wants something takes
/// something with every trade.
pub proof fn law_trades_are_positive(terms: Terms, lots: Seq<Lot>, t: Tally)
    requires
        valid_tally(t),
        valid_lots(lots),
        positive_lots(lots),
        t.remaining.units() >= 0,
        walks_exactly(terms, lots, t),
        walked(terms, lots, t) is Some,
    ensures
        positive_lots((walked(terms, lots, t)->0).1),
        total_units((walked(terms, lots, t)->0).1) >= 0,
        (walked(terms, lots, t)->0).1.len() > 0 ==> total_units((walked(terms, lots, t)->0).1) > 0,
    decreases lots.len(),
{
    if !is_done(terms, lots, t) {
        let lot = lots.first();
        let qty = taken(t, lot).qty;
        let next = after_taking(terms.side, t, lot)->0;
        let rest = lots.drop_first();
        assert(lot == lots[0]);
        law_sign_of_value(t.remaining);
        lemma_rest_of_lots(lots);
        lemma_after_taking_valid(terms.side, t, lot);
        law_trades_are_positive(terms, rest, next);
        let inner = (walked(terms, rest, next)->0).1;
        let trades = (walked(terms, lots, t)->0).1;
        assert(trades.drop_first() =~= inner);
        assert(trades.first() == taken(t, lot));
        assert forall|i: int| 0 <= i < trades.len() implies (#[trigger] trades[i]).qty.units()
            > 0 by {
            if i > 0 {
                assert(trades[i] == inner[i - 1]);
            }
        }
    }
}

/// The lots behind the first.
proof fn lemma_rest_of_lots(lots: Seq<Lot>)
    requires
        lots.len() > 0,
        valid_lots(lots),
    ensures
        valid_lots(lots.drop_first()),
        positive_lots(lots) ==> positive_lots(lots.drop_first()),
{
    let rest = lots.drop_first();
    assert forall|i: int| 0 <= i < rest.len() implies (#[trigger] rest[i]).price.valid()
        && rest[i].qty.valid() by {
        assert(rest[i] == lots[i + 1]);
    }
    if positive_lots(lots) {
        assert forall|i: int| 0 <= i < rest.len() implies (#[trigger] rest[i]).qty.units() > 0 by {
            assert(rest[i] == lots[i + 1]);
        }
    }
}

/// Taking a lot keeps the decimals of an account decimals.
proof fn lemma_after_taking_valid(side: Side, t: Tally, lot: Lot)
    requires
        valid_tally(t),
        lot.price.valid(),
        lot.qty.valid(),
        after_taking(side, t, lot) is Some,
    ensures
        valid_tally(after_taking(side, t, lot)->0),
{
    let qty = taken(t, lot).qty;
    lemma_outcomes_valid(lot.price, qty);
    let paid = product(lot.price, qty)->0;
    lemma_outcomes_valid(t.remaining, qty);
    lemma_outcomes_valid(t.filled, qty);
    lemma_outcomes_valid(t.cost, paid);
    lemma_outcomes_valid(t.cash, paid);
}

/// Whether the decimals of what is held are decimals.
pub open spec fn valid_held(held: Option<PositionInner>) -> bool {
    held matches Some(p) ==> valid_position(p)
}

/// What the position of a symbol has cost and not yet earned back, in squared units.
pub open spec fn sunk_in(held: Option<PositionInner>) -> int {
    match held {
        Some(p) => sunk(p),
        None => 0,
    }
}

/// The cash of an account together with what its position has cost, less what that has earned, in
/// squared units.
pub open spec fn balance(t: Tally) -> int {
    t.cash.units() * one_units() + sunk_in(t.held)
}

/// The quantity by which a trade moves a position.
pub open spec fn signed(side: Side, qty: Decimal) -> Decimal {
    match side {
        Side::Buy => qty,
        Side::Sell => negated(qty),
    }
}

/// Whether taking a lot rounds nothing, in the sums, in the price of the trade and in the position.
pub open spec fn settles_exactly(side: Side, t: Tally, lot: Lot) -> bool {
    let qty = signed(side, taken(t, lot).qty);
    let from = match t.held {
        Some(p) => p,
        None => flat(),
    };
    &&& adds_exactly(side, t, lot)
    &&& product_is_exact(lot.price, taken(t, lot).qty)
    &&& qty.coefficient() != 0 ==> fills_exactly(from, qty, lot.price)
}

/// Whether an order goes through a list of lots without any rounding.
pub open spec fn trades_exactly(terms: Terms, lots: Seq<Lot>, t: Tally) -> bool
    decreases lots.len(),
{
    is_done(terms, lots, t) || {
        &&& settles_exactly(terms.side, t, lots.first())
        &&& after_taking(terms.side, t, lots.first()) matches Some(next) ==> trades_exactly(
            terms,
            lots.drop_first(),
            next,
        )
    }
}

/// Where nothing is rounded, trading moves value between cash and position and makes none: the cash,
/// together with the quantity held times its average cost, less the realized gain, stays the same.
pub proof fn law_trading_keeps_the_balance(terms: Terms, lots: Seq<Lot>, t: Tally)
    requires
        valid_tally(t),
        valid_held(t.held),
        valid_lots(lots),
        trades_exactly(terms, lots, t),
        walked(terms, lots, t) is Some,
    ensures
        balance((walked(terms, lots, t)->0).0) == balance(t),
        valid_held((walked(terms, lots, t)->0).0.held),
        valid_tally((walked(terms, lots, t)->0).0),
        walks_exactly(terms, lots, t),
        t.held is Some ==> (walked(terms, lots, t)->0).0.held is Some,
    decreases lots.len(),
{
    if !is_done(terms, lots, t) {
        let lot = lots.first();
        let next = after_taking(terms.side, t, lot)->0;
        assert(lot == lots[0]);
        lemma_rest_of_lots(lots);
        lemma_after_taking_valid(terms.side, t, lot);
        lemma_taking_keeps_the_balance(terms.side, t, lot);
        law_trading_keeps_the_balance(terms, lots.drop_first(), next);
    }
}

/// One trade keeps the balance.
proof fn lemma_taking_keeps_the_balance(side: Side, t: Tally, lot: Lot)
    requires
        valid_tally(t),
        valid_held(t.held),
        lot.price.valid(),
        lot.qty.valid(),
        settles_exactly(side, t, lot),
        after_taking(side, t, lot) is Some,
    ensures
        balance(after_taking(side, t, lot)->0) == balance(t),
        valid_held(after_taking(side, t, lot)->0.held),
{
    broadcast use group_decimal;

    let qty = taken(t, lot).qty;
    let by = signed(side, qty);
    let paid = product(lot.price, qty)->0;
    let next = after_taking(side, t, lot)->0;
    let from = match t.held {
        Some(p) => p,
        None => flat(),
    };
    lemma_outcomes_valid(lot.price, qty);
    law_negated_value(qty);
    law_sign_of_value(qty);
    law_sign_of_value(by);
    law_sign_of_value(zero());
    assert(sunk(flat()) == 0) by {
        let one = one_units();
        assert(0 * 0 - 0 * one == 0);
    }
    let (c, x, p, one) = (t.cash.units(), paid.units(), lot.price.units(), one_units());
    if by.coefficient() != 0 {
        law_fill_is_paid_for(from, by, lot.price);
        match side {
            Side::Buy => {
                assert((c - x) * one == c * one - qty.units() * p) by (nonlinear_arith)
                    requires
                        x * one == p * qty.units(),
                ;
            },
            Side::Sell => {
                assert((c + x) * one == c * one - by.units() * p) by (nonlinear_arith)
                    requires
                        x * one == p * qty.units(),
                        by.units() == -qty.units(),
                ;
            },
        }
    } else {
        lemma_one_units();
        assert(x == 0) by (nonlinear_arith)
            requires
                x * one == p * qty.units(),
                qty.units() == 0,
                one > 0,
        ;
    }
}

/// What trades cost, in squared units: price times quantity, added up.
pub open spec fn paid_units(trades: Seq<Lot>) -> int
    decreases trades.len(),
{
    if trades.len() == 0 {
        0
    } else {
        trades.first().price.units() * trades.first().qty.units() + paid_units(trades.drop_first())
    }
}

/// Whether an order goes through a list of lots without rounding a sum or the price of a trade.
pub open spec fn pays_exactly(terms: Terms, lots: Seq<Lot>, t: Tally) -> bool
    decreases lots.len(),
{
    is_done(terms, lots, t) || {
        &&& adds_exactly(terms.side, t, lots.first())
        &&& product_is_exact(lots.first().price, taken(t, lots.first()).qty)
        &&& after_taking(terms.side, t, lots.first()) matches Some(next) ==> pays_exactly(
            terms,
            lots.drop_first(),
            next,
        )
    }
}

/// The first trade of an order and the others.
proof fn lemma_first_trade(terms: Terms, lots: Seq<Lot>, t: Tally)
    requires
        walked(terms, lots, t) is Some,
        !is_done(terms, lots, t),
    ensures
        ({
            let trades = (walked(terms, lots, t)->0).1;
            let next = after_taking(terms.side, t, lots.first())->0;
            &&& trades.len() > 0
            &&& trades.first() == taken(t, lots.first())
            &&& walked(terms, lots.drop_first(), next) is Some
            &&& trades.drop_first() == (walked(terms, lots.drop_first(), next)->0).1
            &&& (walked(terms, lots, t)->0).0 == (walked(terms, lots.drop_first(), next)->0).0
        }),
{
    let next = after_taking(terms.side, t, lots.first())->0;
    let inner = (walked(terms, lots.drop_first(), next)->0).1;
    assert((walked(terms, lots, t)->0).1.drop_first() =~= inner);
}

/// Where no sum and no price of a trade is rounded, the cost of an order grows by price times
/// quantity over its trades, and the cash pays for them: it falls by as much for a buyer and rises by
/// as much for a seller.
pub proof fn law_cash_pays_for_the_trades(terms: Terms, lots: Seq<Lot>, t: Tally)
    requires
        valid_tally(t),
        valid_lots(lots),
        pays_exactly(terms, lots, t),
        walked(terms, lots, t) is Some,
    ensures
        ({
            let (end, trades) = walked(terms, lots, t)->0;
            let one = one_units();
            &&& end.cost.units() * one == t.cost.units() * one + paid_units(trades)
            &&& terms.side == Side::Buy ==> end.cash.units() * one == t.cash.units() * one
                - paid_units(trades)
            &&& terms.side == Side::Sell ==> end.cash.units() * one == t.cash.units() * one
                + paid_units(trades)
        }),
    decreases lots.len(),
{
    if !is_done(terms, lots, t) {
        let lot = lots.first();
        let qty = taken(t, lot).qty;
        let next = after_taking(terms.side, t, lot)->0;
        assert(lot == lots[0]);
        lemma_rest_of_lots(lots);
        lemma_after_taking_valid(terms.side, t, lot);
        lemma_first_trade(terms, lots, t);
        law_cash_pays_for_the_trades(terms, lots.drop_first(), next);
        let paid = product(lot.price, qty)->0;
        let (c, k, x, one) = (t.cost.units(), t.cash.units(), paid.units(), one_units());
        assert((c + x) * one == c * one + x * one) by (nonlinear_arith);
        assert((k + x) * one == k * one + x * one) by (nonlinear_arith);
        assert((k - x) * one == k * one - x * one) by (nonlinear_arith);
    }
}

/// The quantity of what is held.
pub open spec fn held_units(held: Option<PositionInner>) -> int {
    match held {
        Some(p) => p.qty.units(),
        None => 0,
    }
}

/// Whether an order goes through a list of lots without rounding the quantity of its position.
pub open spec fn shifts_exactly(terms: Terms, lots: Seq<Lot>, t: Tally) -> bool
    decreases lots.len(),
{
    is_done(terms, lots, t) || {
        let by = signed(terms.side, taken(t, lots.first()).qty);
        let from = match t.held {
            Some(p) => p,
            None => flat(),
        };
        &&& by.coefficient() != 0 ==> moves_exactly(from, by)
        &&& after_taking(terms.side, t, lots.first()) matches Some(next) ==> shifts_exactly(
            terms,
            lots.drop_first(),
            next,
        )
    }
}

/// Where no quantity of the position is rounded, the position moves by the quantities of the trades:
/// up for a buyer, down for a seller.
pub proof fn law_position_moves_by_the_trades(terms: Terms, lots: Seq<Lot>, t: Tally)
    requires
        valid_tally(t),
        valid_held(t.held),
        valid_lots(lots),
        shifts_exactly(terms, lots, t),
        walked(terms, lots, t) is Some,
    ensures
        ({
            let (end, trades) = walked(terms, lots, t)->0;
            &&& terms.side == Side::Buy ==> held_units(end.held) == held_units(t.held)
                + total_units(trades)
            &&& terms.side == Side::Sell ==> held_units(end.held) == held_units(t.held)
                - total_units(trades)
            &&& valid_held(end.held)
        }),
    decreases lots.len(),
{
    broadcast use group_decimal;

    if !is_done(terms, lots, t) {
        let lot = lots.first();
        let qty = taken(t, lot).qty;
        let by = signed(terms.side, qty);
        let next = after_taking(terms.side, t, lot)->0;
        let from = match t.held {
            Some(p) => p,
            None => flat(),
        };
        assert(lot == lots[0]);
        lemma_rest_of_lots(lots);
        lemma_after_taking_valid(terms.side, t, lot);
        law_negated_value(qty);
        law_sign_of_value(qty);
        law_sign_of_value(by);
        law_sign_of_value(zero());
        if by.coefficient() != 0 {
            law_exact_fill_moves_quantity(from, by, lot.price);
        }
        lemma_first_trade(terms, lots, t);
        law_position_moves_by_the_trades(terms, lots.drop_first(), next);
    }
}

/// Matching looks at what is wanted and offered alone. Two accounts that start with the same want,
/// the same quantity got and the same cost get the same trades, whatever their cash and positions.
pub proof fn law_trades_ignore_the_account(terms: Terms, lots: Seq<Lot>, a: Tally, b: Tally)
    requires
        a.remaining == b.remaining,
        a.filled == b.filled,
        a.cost == b.cost,
        walked(terms, lots, a) is Some,
        walked(terms, lots, b) is Some,
    ensures
        ({
            let (x, y) = (walked(terms, lots, a)->0, walked(terms, lots, b)->0);
            &&& x.1 == y.1
            &&& x.0.remaining == y.0.remaining
            &&& x.0.filled == y.0.filled
            &&& x.0.cost == y.0.cost
        }),
    decreases lots.len(),
{
    if !is_done(terms, lots, a) {
        law_trades_ignore_the_account(
            terms,
            lots.drop_first(),
            after_taking(terms.side, a, lots.first())->0,
            after_taking(terms.side, b, lots.first())->0,
        );
    }
}

/// What lots within the limit of an order offer in all.
pub open spec fn within_units(terms: Terms, lots: Seq<Lot>) -> int
    decreases lots.len(),
{
    if lots.len() == 0 {
        0
    } else if beyond_limit(terms, lots.first().price) {
        within_units(terms, lots.drop_first())
    } else {
        lots.first().qty.units() + within_units(terms, lots.drop_first())
    }
}

/// Lots that have the best price first still have it without the first.
proof fn lemma_rest_best_first(side: Side, lots: Seq<Lot>)
    requires
        lots.len() > 0,
        best_first(side, lots),
    ensures
        best_first(side, lots.drop_first()),
        forall|i: int|
            0 <= i < lots.drop_first().len() ==> !is_better(
                side,
                #[trigger] lots.drop_first()[i],
                lots.first(),
            ),
{
    let rest = lots.drop_first();
    assert forall|i: int, j: int| 0 <= i < j < rest.len() implies !is_better(
        side,
        rest[j],
        rest[i],
    ) by {
        assert(!is_better(side, lots[j + 1], lots[i + 1]));
    }
    assert forall|i: int| 0 <= i < rest.len() implies !is_better(
        side,
        #[trigger] rest[i],
        lots.first(),
    ) by {
        assert(!is_better(side, lots[i + 1], lots[0]));
    }
}

/// Where the best offer is beyond the limit, every offer is.
proof fn lemma_nothing_within(terms: Terms, lots: Seq<Lot>, price: Decimal)
    requires
        beyond_limit(terms, price),
        forall|i: int|
            0 <= i < lots.len() ==> if terms.side == Side::Buy {
                price.units() <= (#[trigger] lots[i]).price.units()
            } else {
                price.units() >= lots[i].price.units()
            },
    ensures
        within_units(terms, lots) == 0,
    decreases lots.len(),
{
    if lots.len() > 0 {
        let rest = lots.drop_first();
        assert(lots.first() == lots[0]);
        assert forall|i: int| 0 <= i < rest.len() implies if terms.side == Side::Buy {
            price.units() <= (#[trigger] rest[i]).price.units()
        } else {
            price.units() >= rest[i].price.units()
        } by {
            assert(rest[i] == lots[i + 1]);
        }
        lemma_nothing_within(terms, rest, price);
    }
}

proof fn lemma_within_not_negative(terms: Terms, lots: Seq<Lot>)
    requires
        valid_lots(lots),
        positive_lots(lots),
    ensures
        within_units(terms, lots) >= 0,
    decreases lots.len(),
{
    if lots.len() > 0 {
        assert(lots[0].qty.units() > 0);
        lemma_rest_of_lots(lots);
        lemma_within_not_negative(terms, lots.drop_first());
    }
}

/// Where no sum is rounded, an order gets all that it wants, or all that is offered within its limit,
/// whichever is less.
pub proof fn law_order_gets_all_it_can(terms: Terms, lots: Seq<Lot>, t: Tally)
    requires
        valid_tally(t),
        valid_lots(lots),
        positive_lots(lots),
        best_first(terms.side, lots),
        t.remaining.units() >= 0,
        walks_exactly(terms, lots, t),
        walked(terms, lots, t) is Some,
    ensures
        total_units((walked(terms, lots, t)->0).1) == if t.remaining.units() < within_units(
            terms,
            lots,
        ) {
            t.remaining.units()
        } else {
            within_units(terms, lots)
        },
    decreases lots.len(),
{
    law_sign_of_value(t.remaining);
    lemma_within_not_negative(terms, lots);
    if lots.len() > 0 {
        let lot = lots.first();
        let rest = lots.drop_first();
        assert(lot == lots[0]);
        lemma_rest_of_lots(lots);
        lemma_rest_best_first(terms.side, lots);
        lemma_within_not_negative(terms, rest);
        if beyond_limit(terms, lot.price) {
            assert forall|i: int| 0 <= i < rest.len() implies if terms.side == Side::Buy {
                lot.price.units() <= (#[trigger] rest[i]).price.units()
            } else {
                lot.price.units() >= rest[i].price.units()
            } by {
                assert(!is_better(terms.side, rest[i], lot));
            }
            lemma_nothing_within(terms, rest, lot.price);
        } else if t.remaining.coefficient() != 0 {
            let next = after_taking(terms.side, t, lot)->0;
            lemma_after_taking_valid(terms.side, t, lot);
            lemma_first_trade(terms, lots, t);
            law_order_gets_all_it_can(terms, rest, next);
        }
    }
}

/// The prices and the quantities of lots, in units.
pub open spec fn lot_amounts(lots: Seq<Lot>) -> Seq<(int, int)> {
    lots.map_values(|l: Lot| (l.price.units(), l.qty.units()))
}

/// The trades of an order cost what its quantity costs from the front of the offers.
proof fn lemma_paid_from_the_front(terms: Terms, lots: Seq<Lot>, t: Tally)
    requires
        valid_tally(t),
        valid_lots(lots),
        positive_lots(lots),
        t.remaining.units() >= 0,
        walks_exactly(terms, lots, t),
        walked(terms, lots, t) is Some,
    ensures
        ({
            let trades = (walked(terms, lots, t)->0).1;
            paid_units(trades) == cost_of_want(lot_amounts(lots), total_units(trades))
        }),
    decreases lots.len(),
{
    let trades = (walked(terms, lots, t)->0).1;
    let a = lot_amounts(lots);
    law_trades_are_positive(terms, lots, t);
    if !is_done(terms, lots, t) {
        let lot = lots.first();
        let rest = lots.drop_first();
        let qty = taken(t, lot).qty;
        let next = after_taking(terms.side, t, lot)->0;
        assert(lot == lots[0]);
        assert(a.first() == (lot.price.units(), lot.qty.units()));
        assert(a.drop_first() =~= lot_amounts(rest));
        law_sign_of_value(t.remaining);
        lemma_rest_of_lots(lots);
        lemma_after_taking_valid(terms.side, t, lot);
        lemma_first_trade(terms, lots, t);
        lemma_paid_from_the_front(terms, rest, next);
        law_trades_are_positive(terms, rest, next);
        law_sign_of_value(next.remaining);
        let inner = (walked(terms, rest, next)->0).1;
        if t.remaining.units() <= lot.qty.units() {
            assert(next.remaining.coefficient() == 0);
            assert(inner =~= Seq::empty());
        }
    }
}

/// Where no sum is rounded, no other choice of the same quantity from the offers is better than the
/// trades of an order: none is cheaper for a buyer, none brings more for a seller.
pub proof fn law_no_choice_is_better(terms: Terms, lots: Seq<Lot>, t: Tally, choice: Seq<int>)
    requires
        valid_tally(t),
        valid_lots(lots),
        positive_lots(lots),
        best_first(terms.side, lots),
        t.remaining.units() >= 0,
        walks_exactly(terms, lots, t),
        walked(terms, lots, t) is Some,
        can_choose(lot_amounts(lots), choice),
        chosen(choice) == total_units((walked(terms, lots, t)->0).1),
    ensures
        ({
            let trades = (walked(terms, lots, t)->0).1;
            &&& terms.side == Side::Buy ==> paid_units(trades) <= cost_of_choice(
                lot_amounts(lots),
                choice,
            )
            &&& terms.side == Side::Sell ==> paid_units(trades) >= cost_of_choice(
                lot_amounts(lots),
                choice,
            )
        }),
{
    let a = lot_amounts(lots);
    lemma_paid_from_the_front(terms, lots, t);
    assert forall|i: int| 0 <= i < a.len() implies (#[trigger] a[i]).1 > 0 by {
        assert(lots[i].qty.units() > 0);
    }
    match terms.side {
        Side::Buy => {
            assert forall|i: int, j: int| 0 <= i < j < a.len() implies (#[trigger] a[i]).0 <= (
            #[trigger] a[j]).0 by {
                assert(!is_better(terms.side, lots[j], lots[i]));
            }
        },
        Side::Sell => {
            assert forall|i: int, j: int| 0 <= i < j < a.len() implies (#[trigger] a[i]).0 >= (
            #[trigger] a[j]).0 by {
                assert(!is_better(terms.side, lots[j], lots[i]));
            }
        },
    }
    if a.len() > 0 {
        let bounds = lemma_bounds(a);
        match terms.side {
            Side::Buy => lemma_front_is_cheapest(a, choice, bounds.1),
            Side::Sell => lemma_front_is_dearest(a, choice, bounds.0),
        }
    } else {
        assert(a.len() == 0);
    }
}

} // verus!
