//! What can be read off a book, in terms of its levels.

use crate::book::{
    all_changed, all_readable, is_ladder, is_readable, last_mention, law_last_change_decides,
    lemma_level_map, level_map, levels_of, listed, mentions, reports, reports_first, Level,
    LevelError, LevelField, OrderBook,
};
use crate::decimal::{parsed, Decimal};
use vstd::prelude::*;

verus! {

/// The best levels of a side are the last bids and the first asks, as many as were asked for or as
/// there are.
pub proof fn law_top_levels_are_those_of_the_book(b: OrderBook, n: int)
    requires
        0 <= n,
    ensures
        b.top_bids(n).len() == if n < b.bids().len() {
            n
        } else {
            b.bids().len() as int
        },
        b.top_asks(n).len() == if n < b.asks().len() {
            n
        } else {
            b.asks().len() as int
        },
        forall|i: int|
            0 <= i < b.top_bids(n).len() ==> #[trigger] b.top_bids(n)[i] == b.bids()[b.bids().len()
                - 1 - i],
        forall|i: int|
            0 <= i < b.top_asks(n).len() ==> #[trigger] b.top_asks(n)[i] == b.asks()[i],
{
}

/// The best bid is a bid that no bid is above, and the best ask an ask that no ask is below. There is
/// one on every side that has a level.
pub proof fn law_best_levels_are_those_of_the_book(b: OrderBook)
    requires
        b.wf(),
    ensures
        b.top_bid() is Some <==> b.bids().len() > 0,
        b.top_ask() is Some <==> b.asks().len() > 0,
        b.top_bid() matches Some(l) ==> b.bids().contains(l) && forall|i: int|
            0 <= i < b.bids().len() ==> (#[trigger] b.bids()[i]).0.units() <= l.0.units(),
        b.top_ask() matches Some(l) ==> b.asks().contains(l) && forall|i: int|
            0 <= i < b.asks().len() ==> (#[trigger] b.asks()[i]).0.units() >= l.0.units(),
{
    let (v, w) = (b.bids(), b.asks());
    if v.len() > 0 {
        assert(v[v.len() - 1] == v.last());
        assert forall|i: int| 0 <= i < v.len() implies (#[trigger] v[i]).0.units()
            <= v.last().0.units() by {
            if i < v.len() - 1 {
                assert(v[i].0.units() < v[v.len() - 1].0.units());
            }
        }
    }
    if w.len() > 0 {
        assert(w[0] == w.first());
        assert forall|i: int| 0 <= i < w.len() implies (#[trigger] w[i]).0.units()
            >= w.first().0.units() by {
            if i > 0 {
                assert(w[0].0.units() < w[i].0.units());
            }
        }
    }
}

/// A book is crossed exactly where some bid is not below some ask.
pub proof fn law_crossed_book(b: OrderBook)
    requires
        b.wf(),
    ensures
        b.crossed() <==> exists|i: int, j: int|
            0 <= i < b.bids().len() && 0 <= j < b.asks().len() && (#[trigger] b.bids()[i]).0.units()
                >= (#[trigger] b.asks()[j]).0.units(),
{
    let (v, w) = (b.bids(), b.asks());
    law_best_levels_are_those_of_the_book(b);
    if v.len() > 0 && w.len() > 0 {
        assert(v[v.len() - 1] == v.last() && w[0] == w.first());
    }
}

/// A list of levels leaves at a price its last level there with a quantity other than zero, and
/// nothing where it has none.
pub proof fn law_listed_levels(levels: Seq<Level>, k: int)
    ensures
        forall|i: int|
            0 <= i < levels.len() && (#[trigger] levels[i]).0.units() == k
                && levels[i].1.coefficient() != 0 && (forall|j: int|
                i < j < levels.len() && (#[trigger] levels[j]).0.units() == k
                    ==> levels[j].1.coefficient() == 0) ==> listed(levels).contains_key(k)
                && listed(levels)[k] == levels[i],
        listed(levels).contains_key(k) ==> exists|i: int|
            0 <= i < levels.len() && (#[trigger] levels[i]).0.units() == k
                && levels[i].1.coefficient() != 0,
    decreases levels.len(),
{
    if levels.len() > 0 {
        let d = levels.drop_last();
        let n = levels.len() - 1;
        law_listed_levels(d, k);
        assert forall|i: int|
            0 <= i < levels.len() && (#[trigger] levels[i]).0.units() == k
                && levels[i].1.coefficient() != 0 && (forall|j: int|
                i < j < levels.len() && (#[trigger] levels[j]).0.units() == k
                    ==> levels[j].1.coefficient() == 0) implies listed(levels).contains_key(k)
            && listed(levels)[k] == levels[i] by {
            if i < n {
                assert(d[i] == levels[i]);
                assert(levels[n].0.units() == k ==> levels[n].1.coefficient() == 0);
                assert forall|j: int| i < j < d.len() && (#[trigger] d[j]).0.units() == k implies
                    d[j].1.coefficient() == 0 by {
                    assert(d[j] == levels[j]);
                }
            }
        }
        if listed(levels).contains_key(k) {
            if listed(d).contains_key(k) {
                let i = choose|i: int|
                    0 <= i < d.len() && (#[trigger] d[i]).0.units() == k && d[i].1.coefficient()
                        != 0;
                assert(levels[i] == d[i]);
            } else {
                assert(levels[n].0.units() == k);
            }
        }
    }
}

/// A price that stays in the book while changes are applied keeps the places it was written with, and
/// every price is one that the book had or that the changes mention.
pub proof fn law_prices_keep_their_places(m: Map<int, Level>, delta: Seq<Level>, k: int)
    ensures
        m.contains_key(k) && (forall|i: int|
            0 <= i < delta.len() && (#[trigger] delta[i]).0.units() == k ==> delta[i].1.coefficient()
                != 0) ==> all_changed(m, delta).contains_key(k) && all_changed(m, delta)[k].0
            == m[k].0,
        all_changed(m, delta).contains_key(k) ==> (m.contains_key(k) && all_changed(m, delta)[k].0
            == m[k].0) || exists|i: int|
            0 <= i < delta.len() && (#[trigger] delta[i]).0.units() == k && all_changed(
                m,
                delta,
            )[k].0 == delta[i].0,
    decreases delta.len(),
{
    if delta.len() > 0 {
        let d = delta.drop_last();
        let n = delta.len() - 1;
        law_prices_keep_their_places(m, d, k);
        if m.contains_key(k) && (forall|i: int|
            0 <= i < delta.len() && (#[trigger] delta[i]).0.units() == k ==> delta[i].1.coefficient()
                != 0) {
            assert(delta[n].0.units() == k ==> delta[n].1.coefficient() != 0);
            assert forall|i: int| 0 <= i < d.len() && (#[trigger] d[i]).0.units() == k implies
                d[i].1.coefficient() != 0 by {
                assert(d[i] == delta[i]);
            }
        }
        if all_changed(m, delta).contains_key(k) {
            if all_changed(m, d).contains_key(k) {
                if !(m.contains_key(k) && all_changed(m, d)[k].0 == m[k].0) {
                    let i = choose|i: int|
                        0 <= i < d.len() && (#[trigger] d[i]).0.units() == k && all_changed(
                            m,
                            d,
                        )[k].0 == d[i].0;
                    assert(delta[i] == d[i]);
                }
            } else {
                assert(delta[n].0.units() == k);
            }
        }
    }
}

/// Whether both texts of a level stand for numbers.
pub open spec fn both_read(raw: (String, String)) -> bool {
    parsed(raw.0@) is Ok && parsed(raw.1@) is Ok
}

/// A list can be read exactly where every price and every quantity of it is a number, and gives the
/// level of each pair of texts, one by one.
pub proof fn law_levels_are_read_one_by_one(raw: Seq<(String, String)>)
    ensures
        all_readable(raw) <==> forall|i: int| 0 <= i < raw.len() ==> both_read(#[trigger] raw[i]),
        levels_of(raw).len() == raw.len(),
        forall|i: int|
            0 <= i < raw.len() && both_read(#[trigger] raw[i]) ==> parsed(raw[i].0@) == Ok::<
                Decimal,
                Seq<char>,
            >(levels_of(raw)[i].0) && parsed(raw[i].1@) == Ok::<
                Decimal,
                Seq<char>,
            >(levels_of(raw)[i].1),
{
    assert forall|i: int| 0 <= i < raw.len() implies is_readable(raw[i]) == both_read(
        #[trigger] raw[i],
    ) by {}
}

/// Whether `e` is about the level at `i`, the first of a list that cannot be read: its price where that
/// is no number, else its quantity, with the text as it came and the reason.
pub open spec fn tells_first_bad(e: LevelError, raw: Seq<(String, String)>, i: int) -> bool {
    &&& 0 <= i < raw.len()
    &&& !both_read(raw[i])
    &&& forall|j: int| 0 <= j < i ==> both_read(#[trigger] raw[j])
    &&& match parsed(raw[i].0@) {
        Err(why) => e.field == LevelField::Price && e.raw@ == raw[i].0@ && e.reason@ == why,
        Ok(_) => e.field == LevelField::Qty && e.raw@ == raw[i].1@ && parsed(raw[i].1@) == Err::<
            Decimal,
            Seq<char>,
        >(e.reason@),
    }
}

/// The report on a list that cannot be read is about the first level that cannot.
pub proof fn law_first_bad_level_is_reported(e: LevelError, raw: Seq<(String, String)>)
    requires
        reports_first(e, raw),
    ensures
        exists|i: int| tells_first_bad(e, raw, i),
{
    let i = choose|i: int|
        0 <= i < raw.len() && !is_readable(#[trigger] raw[i]) && all_readable(raw.take(i))
            && reports(e, raw[i]);
    assert forall|j: int| 0 <= j < i implies both_read(#[trigger] raw[j]) by {
        assert(raw.take(i)[j] == raw[j]);
        assert(is_readable(raw.take(i)[j]));
    }
    assert(tells_first_bad(e, raw, i));
}

/// Whether a price is named by the texts of a level.
pub open spec fn names_price(raw: (String, String), k: int) -> bool {
    parsed(raw.0@) matches Ok(p) && p.units() == k
}

/// Whether `i` is the last level of a list that names a price.
pub open spec fn last_named(raw: Seq<(String, String)>, i: int, k: int) -> bool {
    &&& 0 <= i < raw.len()
    &&& names_price(raw[i], k)
    &&& forall|j: int| i < j < raw.len() ==> !names_price(#[trigger] raw[j], k)
}

/// Whether a side reads at a price as a list of changes to it asks. Where the list does not name the
/// price, what rested there still does. Where it does, the last quantity that it names rests there,
/// and nothing where that is zero.
pub open spec fn reads_as_changed(
    before: Seq<Level>,
    after: Seq<Level>,
    raw: Seq<(String, String)>,
    k: int,
) -> bool {
    &&& (forall|i: int| 0 <= i < raw.len() ==> !names_price(#[trigger] raw[i], k))
        ==> same_level_at(before, after, k)
    &&& forall|i: int| #[trigger]
        last_named(raw, i, k) ==> {
            let qty = parsed(raw[i].1@)->Ok_0;
            &&& qty.coefficient() == 0 ==> !has_level_at(after, k)
            &&& qty.coefficient() != 0 ==> has_quantity_at(after, k, qty)
        }
}

/// Whether a side has a level at a price.
pub open spec fn has_level_at(side: Seq<Level>, k: int) -> bool {
    exists|i: int| 0 <= i < side.len() && (#[trigger] side[i]).0.units() == k
}

/// Whether a quantity rests at a price.
pub open spec fn has_quantity_at(
    side: Seq<Level>,
    k: int,
    qty: Decimal,
) -> bool {
    exists|i: int| 0 <= i < side.len() && (#[trigger] side[i]).0.units() == k && side[i].1 == qty
}

/// Whether two sides have the same at a price.
pub open spec fn same_level_at(x: Seq<Level>, y: Seq<Level>, k: int) -> bool {
    &&& forall|i: int|
        0 <= i < x.len() && (#[trigger] x[i]).0.units() == k ==> y.contains(x[i])
    &&& forall|i: int|
        0 <= i < y.len() && (#[trigger] y[i]).0.units() == k ==> x.contains(y[i])
}

/// What the map of a side says of a price, the side says.
pub proof fn lemma_read_at(side: Seq<Level>, k: int)
    requires
        is_ladder(side),
    ensures
        has_level_at(side, k) <==> level_map(side).contains_key(k),
        level_map(side).contains_key(k) ==> has_quantity_at(side, k, level_map(side)[k].1)
            && side.contains(level_map(side)[k]) && level_map(side)[k].0.units() == k,
        forall|i: int|
            0 <= i < side.len() && (#[trigger] side[i]).0.units() == k ==> level_map(
                side,
            ).contains_key(k) && level_map(side)[k] == side[i],
{
    lemma_level_map(side);
    if level_map(side).contains_key(k) {
        let i = choose|i: int| 0 <= i < side.len() && (#[trigger] side[i]).0.units() == k;
        assert(level_map(side)[side[i].0.units()] == side[i]);
        assert(side[i].1 == level_map(side)[k].1);
    }
    assert forall|i: int| 0 <= i < side.len() && (#[trigger] side[i]).0.units() == k implies
        level_map(side).contains_key(k) && level_map(side)[k] == side[i] by {
        assert(level_map(side)[side[i].0.units()] == side[i]);
    }
}

/// A side whose map is that of readable changes to another reads as changed at every price.
pub proof fn lemma_reads_as_changed(
    before: Seq<Level>,
    after: Seq<Level>,
    raw: Seq<(String, String)>,
    k: int,
)
    requires
        is_ladder(before),
        is_ladder(after),
        all_readable(raw),
        level_map(after) == all_changed(level_map(before), levels_of(raw)),
    ensures
        reads_as_changed(before, after, raw, k),
{
    let delta = levels_of(raw);
    lemma_read_at(before, k);
    lemma_read_at(after, k);
    law_levels_are_read_one_by_one(raw);
    law_last_change_decides(level_map(before), delta, k);
    assert forall|i: int| 0 <= i < raw.len() implies names_price(#[trigger] raw[i], k) == (
    delta[i].0.units() == k) by {
        assert(both_read(raw[i]));
    }
    if forall|i: int| 0 <= i < raw.len() ==> !names_price(#[trigger] raw[i], k) {
        assert(!mentions(delta, k)) by {
            if mentions(delta, k) {
                let i = choose|i: int|
                    0 <= i < delta.len() && (#[trigger] delta[i]).0.units() == k;
                assert(names_price(raw[i], k));
            }
        }
    }
    assert forall|i: int| #[trigger] last_named(raw, i, k) implies {
        let qty = parsed(raw[i].1@)->Ok_0;
        &&& qty.coefficient() == 0 ==> !has_level_at(after, k)
        &&& qty.coefficient() != 0 ==> has_quantity_at(after, k, qty)
    } by {
        assert(both_read(raw[i]));
        assert(last_mention(delta, i, k)) by {
            assert forall|j: int| i < j < delta.len() implies (#[trigger] delta[j]).0.units()
                != k by {
                assert(!names_price(raw[j], k));
            }
        }
    }
}

/// Whether a side reads at a price as a list of its levels says: the last quantity other than zero
/// that the list names rests there, and nothing where it names none.
pub open spec fn reads_as_listed(
    side: Seq<Level>,
    raw: Seq<(String, String)>,
    k: int,
) -> bool {
    &&& (forall|i: int| 0 <= i < raw.len() ==> !offers_at(#[trigger] raw[i], k)) ==> !has_level_at(
        side,
        k,
    )
    &&& forall|i: int|
        0 <= i < raw.len() && offers_at(#[trigger] raw[i], k) && (forall|j: int|
            i < j < raw.len() ==> !offers_at(#[trigger] raw[j], k)) ==> has_quantity_at(
            side,
            k,
            parsed(raw[i].1@)->Ok_0,
        )
}

/// Whether the texts of a level name a price and a quantity other than zero.
pub open spec fn offers_at(raw: (String, String), k: int) -> bool {
    names_price(raw, k) && (parsed(raw.1@) matches Ok(q) && q.coefficient() != 0)
}

/// A side whose map is that of a readable list reads as listed at every price.
pub proof fn lemma_reads_as_listed(side: Seq<Level>, raw: Seq<(String, String)>, k: int)
    requires
        is_ladder(side),
        all_readable(raw),
        level_map(side) == listed(levels_of(raw)),
    ensures
        reads_as_listed(side, raw, k),
{
    let levels = levels_of(raw);
    lemma_read_at(side, k);
    law_levels_are_read_one_by_one(raw);
    law_listed_levels(levels, k);
    assert forall|i: int| 0 <= i < raw.len() implies offers_at(#[trigger] raw[i], k) == (
    levels[i].0.units() == k && levels[i].1.coefficient() != 0) by {
        assert(both_read(raw[i]));
    }
    if listed(levels).contains_key(k) {
        let i = choose|i: int|
            0 <= i < levels.len() && (#[trigger] levels[i]).0.units() == k
                && levels[i].1.coefficient() != 0;
        assert(offers_at(raw[i], k));
    }
    assert forall|i: int|
        0 <= i < raw.len() && offers_at(#[trigger] raw[i], k) && (forall|j: int|
            i < j < raw.len() ==> !offers_at(#[trigger] raw[j], k)) implies has_quantity_at(
        side,
        k,
        parsed(raw[i].1@)->Ok_0,
    ) by {
        assert(both_read(raw[i]));
        assert(levels[i].0.units() == k);
        assert forall|j: int|
            i < j < levels.len() && (#[trigger] levels[j]).0.units() == k implies
            levels[j].1.coefficient() == 0 by {
            assert(!offers_at(raw[j], k));
        }
    }
}

} // verus!
