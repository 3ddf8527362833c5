//! What two books offer to an order, level by level.

use crate::book::{law_top_levels, OrderBook};
use crate::book_laws::law_top_levels_are_those_of_the_book;
use crate::execution::{
    best_first, is_better, law_merging_keeps_order, lots_of, merged, offers, Lot, Side, Venue,
};
use vstd::prelude::*;

verus! {

/// The lots that an order can reach on one venue: its fifty best asks for a buyer, its fifty best bids
/// for a seller, or all of them where there are fewer.
pub open spec fn reachable(side: Side, book: OrderBook, venue: Venue) -> Seq<Lot> {
    match side {
        Side::Buy => Seq::new(
            if book.asks().len() < 50 {
                book.asks().len()
            } else {
                50
            },
            |i: int| Lot { price: book.asks()[i].0, qty: book.asks()[i].1, venue },
        ),
        Side::Sell => Seq::new(
            if book.bids().len() < 50 {
                book.bids().len()
            } else {
                50
            },
            |i: int|
                Lot {
                    price: book.bids()[book.bids().len() - 1 - i].0,
                    qty: book.bids()[book.bids().len() - 1 - i].1,
                    venue,
                },
        ),
    }
}

/// The lots that are reached are the best levels of the venue, each worse than the one before.
proof fn lemma_reachable(side: Side, book: OrderBook, venue: Venue)
    requires
        book.wf(),
    ensures
        reachable(side, book, venue) == lots_of(
            match side {
                Side::Buy => book.top_asks(50),
                Side::Sell => book.top_bids(50),
            },
            venue,
        ),
        forall|i: int, j: int|
            0 <= i < j < reachable(side, book, venue).len() ==> is_better(
                side,
                reachable(side, book, venue)[i],
                reachable(side, book, venue)[j],
            ),
        best_first(side, reachable(side, book, venue)),
{
    law_top_levels(book, 50, 50);
    law_top_levels_are_those_of_the_book(book, 50);
    let levels = match side {
        Side::Buy => book.top_asks(50),
        Side::Sell => book.top_bids(50),
    };
    let lots = reachable(side, book, venue);
    assert(lots =~= lots_of(levels, venue));
    assert forall|i: int, j: int| 0 <= i < j < lots.len() implies is_better(
        side,
        lots[i],
        lots[j],
    ) by {
        match side {
            Side::Buy => {
                assert(book.asks()[i].0.units() < book.asks()[j].0.units());
            },
            Side::Sell => {
                let n = book.bids().len();
                assert(book.bids()[n - 1 - j].0.units() < book.bids()[n - 1 - i].0.units());
            },
        }
    }
}

/// What is offered to an order is every lot that it can reach on the two venues, each once, and
/// nothing else.
pub proof fn law_every_reachable_level_is_offered(
    side: Side,
    binance: OrderBook,
    coindcx: OrderBook,
)
    requires
        binance.wf(),
        coindcx.wf(),
    ensures
        offers(side, binance, coindcx).to_multiset() == reachable(
            side,
            binance,
            Venue::Binance,
        ).to_multiset().add(reachable(side, coindcx, Venue::Coindcx).to_multiset()),
        offers(side, binance, coindcx).len() == reachable(side, binance, Venue::Binance).len()
            + reachable(side, coindcx, Venue::Coindcx).len(),
{
    lemma_reachable(side, binance, Venue::Binance);
    lemma_reachable(side, coindcx, Venue::Coindcx);
    law_merging_keeps_order(
        side,
        reachable(side, binance, Venue::Binance),
        reachable(side, coindcx, Venue::Coindcx),
    );
}

/// Where neither book has more than fifty levels on the side that an order trades with, every level
/// of both is offered, and there are no other offers.
pub proof fn law_small_books_are_offered_whole(side: Side, binance: OrderBook, coindcx: OrderBook)
    requires
        binance.wf(),
        coindcx.wf(),
        side == Side::Buy ==> binance.asks().len() <= 50 && coindcx.asks().len() <= 50,
        side == Side::Sell ==> binance.bids().len() <= 50 && coindcx.bids().len() <= 50,
    ensures
        side == Side::Buy ==> {
            &&& offers(side, binance, coindcx).len() == binance.asks().len() + coindcx.asks().len()
            &&& forall|i: int|
                0 <= i < binance.asks().len() ==> offers(side, binance, coindcx).contains(
                    Lot {
                        price: (#[trigger] binance.asks()[i]).0,
                        qty: binance.asks()[i].1,
                        venue: Venue::Binance,
                    },
                )
            &&& forall|i: int|
                0 <= i < coindcx.asks().len() ==> offers(side, binance, coindcx).contains(
                    Lot {
                        price: (#[trigger] coindcx.asks()[i]).0,
                        qty: coindcx.asks()[i].1,
                        venue: Venue::Coindcx,
                    },
                )
        },
        side == Side::Sell ==> {
            &&& offers(side, binance, coindcx).len() == binance.bids().len() + coindcx.bids().len()
            &&& forall|i: int|
                0 <= i < binance.bids().len() ==> offers(side, binance, coindcx).contains(
                    Lot {
                        price: (#[trigger] binance.bids()[i]).0,
                        qty: binance.bids()[i].1,
                        venue: Venue::Binance,
                    },
                )
            &&& forall|i: int|
                0 <= i < coindcx.bids().len() ==> offers(side, binance, coindcx).contains(
                    Lot {
                        price: (#[trigger] coindcx.bids()[i]).0,
                        qty: coindcx.bids()[i].1,
                        venue: Venue::Coindcx,
                    },
                )
        },
{
    let all = offers(side, binance, coindcx);
    law_every_reachable_level_is_offered(side, binance, coindcx);
    lemma_reachable_is_offered(side, binance, coindcx);
    let (a, b) = (
        reachable(side, binance, Venue::Binance),
        reachable(side, coindcx, Venue::Coindcx),
    );
    match side {
        Side::Buy => {
            assert forall|i: int| 0 <= i < binance.asks().len() implies all.contains(
                Lot {
                    price: (#[trigger] binance.asks()[i]).0,
                    qty: binance.asks()[i].1,
                    venue: Venue::Binance,
                },
            ) by {
                assert(all.contains(a[i]));
            }
            assert forall|i: int| 0 <= i < coindcx.asks().len() implies all.contains(
                Lot {
                    price: (#[trigger] coindcx.asks()[i]).0,
                    qty: coindcx.asks()[i].1,
                    venue: Venue::Coindcx,
                },
            ) by {
                assert(all.contains(b[i]));
            }
        },
        Side::Sell => {
            assert forall|i: int| 0 <= i < binance.bids().len() implies all.contains(
                Lot {
                    price: (#[trigger] binance.bids()[i]).0,
                    qty: binance.bids()[i].1,
                    venue: Venue::Binance,
                },
            ) by {
                assert(all.contains(a[binance.bids().len() - 1 - i]));
            }
            assert forall|i: int| 0 <= i < coindcx.bids().len() implies all.contains(
                Lot {
                    price: (#[trigger] coindcx.bids()[i]).0,
                    qty: coindcx.bids()[i].1,
                    venue: Venue::Coindcx,
                },
            ) by {
                assert(all.contains(b[coindcx.bids().len() - 1 - i]));
            }
        },
    }
}

proof fn lemma_reachable_is_offered(side: Side, binance: OrderBook, coindcx: OrderBook)
    requires
        binance.wf(),
        coindcx.wf(),
    ensures
        forall|i: int|
            0 <= i < reachable(side, binance, Venue::Binance).len() ==> offers(
                side,
                binance,
                coindcx,
            ).contains(#[trigger] reachable(side, binance, Venue::Binance)[i]),
        forall|i: int|
            0 <= i < reachable(side, coindcx, Venue::Coindcx).len() ==> offers(
                side,
                binance,
                coindcx,
            ).contains(#[trigger] reachable(side, coindcx, Venue::Coindcx)[i]),
{
    let all = offers(side, binance, coindcx);
    let (a, b) = (
        reachable(side, binance, Venue::Binance),
        reachable(side, coindcx, Venue::Coindcx),
    );
    law_every_reachable_level_is_offered(side, binance, coindcx);
    all.to_multiset_ensures();
    a.to_multiset_ensures();
    b.to_multiset_ensures();
    assert forall|i: int| 0 <= i < a.len() implies all.contains(#[trigger] a[i]) by {
        assert(a.contains(a[i]));
        assert(all.to_multiset().count(a[i]) > 0);
    }
    assert forall|i: int| 0 <= i < b.len() implies all.contains(#[trigger] b[i]) by {
        assert(b.contains(b[i]));
        assert(all.to_multiset().count(b[i]) > 0);
    }
}

/// Merging two lists of lots loses none and adds none, whatever their order.
pub proof fn law_merging_keeps_every_lot(side: Side, a: Seq<Lot>, b: Seq<Lot>)
    ensures
        merged(side, a, b).to_multiset() == a.to_multiset().add(b.to_multiset()),
        merged(side, a, b).len() == a.len() + b.len(),
    decreases a.len() + b.len(),
{
    broadcast use vstd::seq_lib::group_to_multiset_ensures;

    let m = merged(side, a, b);
    if a.len() == 0 {
        assert(a =~= Seq::empty());
        assert(m.to_multiset() =~= a.to_multiset().add(b.to_multiset()));
    } else if b.len() == 0 {
        assert(b =~= Seq::empty());
        assert(m.to_multiset() =~= a.to_multiset().add(b.to_multiset()));
    } else {
        let from_b = is_better(side, b.first(), a.first());
        let head = if from_b { b.first() } else { a.first() };
        let x = if from_b { a } else { a.drop_first() };
        let y = if from_b { b.drop_first() } else { b };
        law_merging_keeps_every_lot(side, x, y);
        let rest = merged(side, x, y);
        assert(m == seq![head] + rest);
        assert(a =~= seq![a.first()] + a.drop_first());
        assert(b =~= seq![b.first()] + b.drop_first());
        vstd::seq_lib::lemma_multiset_commutative(seq![head], rest);
        if from_b {
            vstd::seq_lib::lemma_multiset_commutative(seq![head], y);
        } else {
            vstd::seq_lib::lemma_multiset_commutative(seq![head], x);
        }
        assert(m.to_multiset() =~= a.to_multiset().add(b.to_multiset()));
    }
}

/// Whether one lot is to be taken before another: its price is better for the order, or they are
/// equal in price and it is on the first venue and the other on the second.
pub open spec fn comes_first(side: Side, x: Lot, y: Lot) -> bool {
    let (p, q) = (x.price.units(), y.price.units());
    ||| side == Side::Buy && p < q
    ||| side == Side::Sell && p > q
    ||| p == q && x.venue == Venue::Binance && y.venue == Venue::Coindcx
}

proof fn lemma_merged_in_order(side: Side, a: Seq<Lot>, b: Seq<Lot>)
    requires
        forall|i: int| 0 <= i < a.len() ==> (#[trigger] a[i]).venue == Venue::Binance,
        forall|i: int| 0 <= i < b.len() ==> (#[trigger] b[i]).venue == Venue::Coindcx,
        forall|i: int, j: int| 0 <= i < j < a.len() ==> is_better(side, a[i], a[j]),
        forall|i: int, j: int| 0 <= i < j < b.len() ==> is_better(side, b[i], b[j]),
    ensures
        forall|i: int, j: int|
            0 <= i < j < merged(side, a, b).len() ==> comes_first(
                side,
                merged(side, a, b)[i],
                merged(side, a, b)[j],
            ),
        forall|i: int|
            0 <= i < merged(side, a, b).len() ==> a.contains(#[trigger] merged(side, a, b)[i])
                || b.contains(merged(side, a, b)[i]),
    decreases a.len() + b.len(),
{
    let m = merged(side, a, b);
    if a.len() == 0 {
        assert forall|i: int| 0 <= i < m.len() implies b.contains(#[trigger] m[i]) by {
            assert(m[i] == b[i]);
        }
        assert forall|i: int, j: int| 0 <= i < j < m.len() implies comes_first(
            side,
            m[i],
            m[j],
        ) by {
            assert(is_better(side, b[i], b[j]));
        }
    } else if b.len() == 0 {
        assert forall|i: int| 0 <= i < m.len() implies a.contains(#[trigger] m[i]) by {
            assert(m[i] == a[i]);
        }
        assert forall|i: int, j: int| 0 <= i < j < m.len() implies comes_first(
            side,
            m[i],
            m[j],
        ) by {
            assert(is_better(side, a[i], a[j]));
        }
    } else {
        let from_b = is_better(side, b.first(), a.first());
        let head = if from_b { b.first() } else { a.first() };
        let x = if from_b { a } else { a.drop_first() };
        let y = if from_b { b.drop_first() } else { b };
        let rest = merged(side, x, y);
        lemma_merged_in_order(side, x, y);
        assert(m == seq![head] + rest);
        assert(a[0] == a.first() && b[0] == b.first());
        assert forall|i: int| 0 <= i < m.len() implies a.contains(#[trigger] m[i]) || b.contains(
            m[i],
        ) by {
            if i == 0 {
                assert(m[0] == head);
            } else {
                assert(m[i] == rest[i - 1]);
                if x.contains(rest[i - 1]) {
                    let k = choose|k: int| 0 <= k < x.len() && x[k] == rest[i - 1];
                    assert(a[if from_b { k } else { k + 1 }] == m[i]);
                } else {
                    let k = choose|k: int| 0 <= k < y.len() && y[k] == rest[i - 1];
                    assert(b[if from_b { k + 1 } else { k }] == m[i]);
                }
            }
        }
        assert forall|i: int, j: int| 0 <= i < j < m.len() implies comes_first(
            side,
            m[i],
            m[j],
        ) by {
            assert(m[j] == rest[j - 1]);
            if i > 0 {
                assert(m[i] == rest[i - 1]);
            } else if x.contains(rest[j - 1]) {
                let k = choose|k: int| 0 <= k < x.len() && x[k] == rest[j - 1];
                if from_b {
                    assert(a[k] == m[j]);
                    assert(k > 0 ==> is_better(side, a[0], a[k]));
                } else {
                    assert(a[k + 1] == m[j]);
                    assert(is_better(side, a[0], a[k + 1]));
                }
            } else {
                let k = choose|k: int| 0 <= k < y.len() && y[k] == rest[j - 1];
                if from_b {
                    assert(b[k + 1] == m[j]);
                    assert(is_better(side, b[0], b[k + 1]));
                } else {
                    assert(b[k] == m[j]);
                    assert(k > 0 ==> is_better(side, b[0], b[k]));
                }
            }
        }
    }
}

/// What is offered stands in the order in which it is to be taken: the best price first, and at equal
/// prices the first venue before the second.
pub proof fn law_offers_stand_in_order(side: Side, binance: OrderBook, coindcx: OrderBook)
    requires
        binance.wf(),
        coindcx.wf(),
    ensures
        forall|i: int, j: int|
            0 <= i < j < offers(side, binance, coindcx).len() ==> comes_first(
                side,
                offers(side, binance, coindcx)[i],
                offers(side, binance, coindcx)[j],
            ),
{
    lemma_reachable(side, binance, Venue::Binance);
    lemma_reachable(side, coindcx, Venue::Coindcx);
    lemma_merged_in_order(
        side,
        reachable(side, binance, Venue::Binance),
        reachable(side, coindcx, Venue::Coindcx),
    );
}

} // verus!
