//! The price levels of one venue.

use crate::decimal::{parsed, Decimal};
use vstd::prelude::*;

verus! {

/// A price and the quantity that rests there.
pub type Level = (Decimal, Decimal);

/// The bids and the asks of one venue. Each side lists its prices in ascending order, no two of
/// them equal in value, and no level has the quantity zero.
#[derive(Debug)]
pub struct OrderBook {
    bids: Vec<Level>,
    asks: Vec<Level>,
}

/// Whether levels have strictly rising prices and quantities other than zero.
pub open spec fn is_ladder(v: Seq<Level>) -> bool {
    &&& forall|i: int, j: int| 0 <= i < j < v.len() ==> v[i].0.units() < v[j].0.units()
    &&& forall|i: int| 0 <= i < v.len() ==> (#[trigger] v[i]).1.coefficient() != 0
}

/// The levels by the value of their price.
pub open spec fn level_map(v: Seq<Level>) -> Map<int, Level>
    decreases v.len(),
{
    if v.len() == 0 {
        Map::empty()
    } else {
        level_map(v.drop_last()).insert(v.last().0.units(), v.last())
    }
}

/// One change to a side: the quantity zero takes the price out, any other quantity is set. A price
/// that is there already keeps the places it was written with.
pub open spec fn changed(m: Map<int, Level>, l: Level) -> Map<int, Level> {
    let k = l.0.units();
    if l.1.coefficient() == 0 {
        m.remove(k)
    } else if m.contains_key(k) {
        m.insert(k, (m[k].0, l.1))
    } else {
        m.insert(k, l)
    }
}

/// A list of changes, one after the other.
pub open spec fn all_changed(m: Map<int, Level>, delta: Seq<Level>) -> Map<int, Level>
    decreases delta.len(),
{
    if delta.len() == 0 {
        m
    } else {
        changed(all_changed(m, delta.drop_last()), delta.last())
    }
}

/// The side that a list of levels describes: levels with the quantity zero are passed over, and of
/// several levels at one price the last one counts.
pub open spec fn listed(levels: Seq<Level>) -> Map<int, Level>
    decreases levels.len(),
{
    if levels.len() == 0 {
        Map::empty()
    } else {
        let before = listed(levels.drop_last());
        let l = levels.last();
        if l.1.coefficient() == 0 {
            before
        } else {
            before.insert(l.0.units(), l)
        }
    }
}

/// The first `n` levels, or all of them where there are fewer.
pub open spec fn first_levels(v: Seq<Level>, n: int) -> Seq<Level> {
    if n < v.len() {
        v.take(n)
    } else {
        v
    }
}

/// The levels of a ladder are found in its map by their prices, and nothing else is.
pub proof fn lemma_level_map(v: Seq<Level>)
    requires
        is_ladder(v),
    ensures
        forall|i: int| 0 <= i < v.len() ==> level_map(v).contains_key((#[trigger] v[i]).0.units()),
        forall|i: int| 0 <= i < v.len() ==> level_map(v)[(#[trigger] v[i]).0.units()] == v[i],
        forall|k: int| #[trigger]
            level_map(v).contains_key(k) ==> exists|i: int|
                0 <= i < v.len() && (#[trigger] v[i]).0.units() == k,
        level_map(v).dom().finite(),
        level_map(v).dom().len() == v.len(),
    decreases v.len(),
{
    if v.len() > 0 {
        let w = v.drop_last();
        assert(is_ladder(w)) by {
            assert forall|i: int, j: int| 0 <= i < j < w.len() implies w[i].0.units()
                < w[j].0.units() by {
                assert(w[i] == v[i] && w[j] == v[j]);
            }
            assert forall|i: int| 0 <= i < w.len() implies (#[trigger] w[i]).1.coefficient()
                != 0 by {
                assert(w[i] == v[i]);
            }
        }
        lemma_level_map(w);
        let k = v.last().0.units();
        assert(!level_map(w).contains_key(k)) by {
            if level_map(w).contains_key(k) {
                let i = choose|i: int| 0 <= i < w.len() && (#[trigger] w[i]).0.units() == k;
                assert(v[i].0.units() < v[v.len() - 1].0.units());
            }
        }
        assert forall|i: int| 0 <= i < v.len() implies level_map(v).contains_key(
            (#[trigger] v[i]).0.units(),
        ) && level_map(v)[v[i].0.units()] == v[i] by {
            if i < w.len() {
                assert(w[i] == v[i]);
            }
        }
        assert forall|k2: int| #[trigger] level_map(v).contains_key(k2) implies exists|i: int|
            0 <= i < v.len() && (#[trigger] v[i]).0.units() == k2 by {
            if k2 == k {
                assert(v[v.len() - 1].0.units() == k2);
            } else {
                let i = choose|i: int| 0 <= i < w.len() && (#[trigger] w[i]).0.units() == k2;
                assert(v[i].0.units() == k2);
            }
        }
        assert(level_map(v).dom() =~= level_map(w).dom().insert(k));
    } else {
        assert(level_map(v).dom() =~= Set::empty());
    }
}

/// A ladder is determined by what rests at which price.
pub proof fn law_ladder_is_its_map(v: Seq<Level>, w: Seq<Level>)
    requires
        is_ladder(v),
        is_ladder(w),
        level_map(v) == level_map(w),
    ensures
        v == w,
    decreases v.len(),
{
    lemma_level_map(v);
    lemma_level_map(w);
    if v.len() > 0 {
        let (a, b) = (v.last(), w.last());
        assert(level_map(w).contains_key(v[v.len() - 1].0.units()));
        assert(level_map(v).contains_key(w[w.len() - 1].0.units()));
        let i = choose|i: int| 0 <= i < w.len() && (#[trigger] w[i]).0.units() == a.0.units();
        let j = choose|j: int| 0 <= j < v.len() && (#[trigger] v[j]).0.units() == b.0.units();
        assert(a.0.units() == b.0.units()) by {
            if i < w.len() - 1 {
                assert(w[i].0.units() < w[w.len() - 1].0.units());
            }
            if j < v.len() - 1 {
                assert(v[j].0.units() < v[v.len() - 1].0.units());
            }
        }
        assert(a == b) by {
            assert(level_map(v)[v[v.len() - 1].0.units()] == a);
            assert(level_map(w)[w[w.len() - 1].0.units()] == b);
        }
        lemma_removed(v, v.len() - 1);
        lemma_removed(w, w.len() - 1);
        assert(v.remove(v.len() - 1) =~= v.drop_last());
        assert(w.remove(w.len() - 1) =~= w.drop_last());
        law_ladder_is_its_map(v.drop_last(), w.drop_last());
        assert(v =~= v.drop_last().push(a));
        assert(w =~= w.drop_last().push(b));
    } else {
        assert(v =~= w);
    }
}

/// Whether a list of levels mentions a price.
pub open spec fn mentions(levels: Seq<Level>, k: int) -> bool {
    exists|i: int| 0 <= i < levels.len() && (#[trigger] levels[i]).0.units() == k
}

/// Whether `i` is the last mention of a price.
pub open spec fn last_mention(levels: Seq<Level>, i: int, k: int) -> bool {
    &&& 0 <= i < levels.len()
    &&& levels[i].0.units() == k
    &&& forall|j: int| i < j < levels.len() ==> (#[trigger] levels[j]).0.units() != k
}

/// After a list of changes, a price that it does not mention is as before. At a price that it
/// mentions, the last mention decides: the quantity zero leaves nothing there, any other quantity
/// rests there.
pub proof fn law_last_change_decides(m: Map<int, Level>, delta: Seq<Level>, k: int)
    ensures
        !mentions(delta, k) ==> all_changed(m, delta).contains_key(k) == m.contains_key(k)
            && all_changed(m, delta)[k] == m[k],
        forall|i: int| #[trigger]
            last_mention(delta, i, k) ==> {
                &&& all_changed(m, delta).contains_key(k) <==> delta[i].1.coefficient() != 0
                &&& delta[i].1.coefficient() != 0 ==> all_changed(m, delta)[k].1 == delta[i].1
            },
    decreases delta.len(),
{
    if delta.len() > 0 {
        let d = delta.drop_last();
        let n = delta.len() - 1;
        law_last_change_decides(m, d, k);
        if delta.last().0.units() == k {
            assert(delta[n].0.units() == k);
            assert forall|i: int| #[trigger] last_mention(delta, i, k) implies i == n by {}
        } else {
            assert(mentions(delta, k) ==> mentions(d, k)) by {
                if mentions(delta, k) {
                    let i = choose|i: int|
                        0 <= i < delta.len() && (#[trigger] delta[i]).0.units() == k;
                    assert(d[i].0.units() == k);
                }
            }
            assert(mentions(d, k) ==> mentions(delta, k)) by {
                if mentions(d, k) {
                    let i = choose|i: int| 0 <= i < d.len() && (#[trigger] d[i]).0.units() == k;
                    assert(delta[i].0.units() == k);
                }
            }
            assert forall|i: int| #[trigger] last_mention(delta, i, k) implies last_mention(
                d,
                i,
                k,
            ) by {
                assert forall|j: int| i < j < d.len() implies (#[trigger] d[j]).0.units() != k by {
                    assert(d[j] == delta[j]);
                }
            }
        }
    }
}

/// Changes in two parts are the changes in one: first the first part, then the second.
pub proof fn law_changes_add_up(m: Map<int, Level>, first: Seq<Level>, second: Seq<Level>)
    ensures
        all_changed(m, first + second) == all_changed(all_changed(m, first), second),
    decreases second.len(),
{
    if second.len() == 0 {
        assert(first + second =~= first);
    } else {
        assert((first + second).drop_last() =~= first + second.drop_last());
        law_changes_add_up(m, first, second.drop_last());
    }
}

proof fn lemma_last_mention(levels: Seq<Level>, k: int) -> (i: int)
    requires
        mentions(levels, k),
    ensures
        last_mention(levels, i, k),
    decreases levels.len(),
{
    let n = levels.len() - 1;
    if levels[n].0.units() == k {
        n
    } else {
        let i = choose|i: int| 0 <= i < levels.len() && (#[trigger] levels[i]).0.units() == k;
        assert(levels.drop_last()[i].0.units() == k);
        let r = lemma_last_mention(levels.drop_last(), k);
        assert forall|j: int| r < j < levels.len() implies (#[trigger] levels[j]).0.units()
            != k by {
            if j < n {
                assert(levels[j] == levels.drop_last()[j]);
            }
        }
        r
    }
}

/// Applying the same changes a second time leaves the same prices with the same quantities.
pub proof fn law_changes_are_idempotent(m: Map<int, Level>, delta: Seq<Level>, k: int)
    ensures
        ({
            let once = all_changed(m, delta);
            let twice = all_changed(once, delta);
            &&& twice.contains_key(k) <==> once.contains_key(k)
            &&& once.contains_key(k) ==> twice[k].1 == once[k].1
        }),
{
    let once = all_changed(m, delta);
    law_last_change_decides(m, delta, k);
    law_last_change_decides(once, delta, k);
    if mentions(delta, k) {
        let i = lemma_last_mention(delta, k);
        assert(last_mention(delta, i, k));
    }
}

/// The levels with a quantity other than zero.
pub open spec fn nonzero_levels(levels: Seq<Level>) -> Seq<Level> {
    levels.filter(|l: Level| l.1.coefficient() != 0)
}

/// Replacing the levels of a book comes to applying them, those with the quantity zero left out, as
/// changes to a book without levels: the same prices get the same quantities.
pub proof fn law_replace_is_changes_from_nothing(levels: Seq<Level>, k: int)
    ensures
        ({
            let a = listed(levels);
            let b = all_changed(Map::<int, Level>::empty(), nonzero_levels(levels));
            &&& a.contains_key(k) <==> b.contains_key(k)
            &&& a.contains_key(k) ==> a[k].1 == b[k].1
        }),
    decreases levels.len(),
{
    reveal(Seq::filter);
    if levels.len() > 0 {
        let d = levels.drop_last();
        law_replace_is_changes_from_nothing(d, k);
        let f = nonzero_levels(levels);
        if levels.last().1.coefficient() != 0 {
            assert(f == nonzero_levels(d).push(levels.last()));
            assert(f.drop_last() =~= nonzero_levels(d));
        } else {
            assert(f == nonzero_levels(d));
        }
    } else {
        assert(nonzero_levels(levels) =~= Seq::empty());
    }
}

/// No bid is above the best bid, and no ask is below the best ask.
pub proof fn law_best_levels(b: OrderBook)
    requires
        b.wf(),
    ensures
        forall|k: int| #[trigger]
            level_map(b.bids()).contains_key(k) ==> b.top_bid() is Some && k
                <= (b.top_bid()->0).0.units(),
        forall|k: int| #[trigger]
            level_map(b.asks()).contains_key(k) ==> b.top_ask() is Some && k
                >= (b.top_ask()->0).0.units(),
{
    let (v, w) = (b.bids(), b.asks());
    lemma_level_map(v);
    lemma_level_map(w);
    assert forall|k: int| #[trigger] level_map(v).contains_key(k) implies b.top_bid() is Some && k
        <= (b.top_bid()->0).0.units() by {
        let i = choose|i: int| 0 <= i < v.len() && (#[trigger] v[i]).0.units() == k;
        if i < v.len() - 1 {
            assert(v[i].0.units() < v[v.len() - 1].0.units());
        }
    }
    assert forall|k: int| #[trigger] level_map(w).contains_key(k) implies b.top_ask() is Some && k
        >= (b.top_ask()->0).0.units() by {
        let i = choose|i: int| 0 <= i < w.len() && (#[trigger] w[i]).0.units() == k;
        if i > 0 {
            assert(w[0].0.units() < w[i].0.units());
        }
    }
}

/// The best levels stand in the order of their prices, the best first; asking for fewer gives the
/// first of them; and the first of all is the best level.
pub proof fn law_top_levels(b: OrderBook, m: int, n: int)
    requires
        b.wf(),
        0 <= m <= n,
    ensures
        forall|i: int, j: int|
            0 <= i < j < b.top_bids(n).len() ==> b.top_bids(n)[i].0.units() > b.top_bids(
                n,
            )[j].0.units(),
        forall|i: int, j: int|
            0 <= i < j < b.top_asks(n).len() ==> b.top_asks(n)[i].0.units() < b.top_asks(
                n,
            )[j].0.units(),
        b.top_bids(m) == first_levels(b.top_bids(n), m),
        b.top_asks(m) == first_levels(b.top_asks(n), m),
        b.top_bids(1).len() > 0 ==> b.top_bid() == Some(b.top_bids(1)[0]),
        b.top_asks(1).len() > 0 ==> b.top_ask() == Some(b.top_asks(1)[0]),
        b.top_bids(1).len() == 0 ==> b.top_bid() is None,
        b.top_asks(1).len() == 0 ==> b.top_ask() is None,
{
    assert(b.top_bids(m) =~= first_levels(b.top_bids(n), m));
    assert(b.top_asks(m) =~= first_levels(b.top_asks(n), m));
}

/// Where a price stands in a ladder, or where it would.
fn locate(v: &Vec<Level>, price: Decimal) -> (r: (usize, bool))
    requires
        is_ladder(v@),
    ensures
        r.0 <= v.len(),
        forall|j: int| 0 <= j < r.0 ==> (#[trigger] v[j]).0.units() < price.units(),
        forall|j: int| r.0 <= j < v.len() ==> (#[trigger] v[j]).0.units() >= price.units(),
        r.1 == (r.0 < v.len() && v[r.0 as int].0.units() == price.units()),
{
    let mut lo: usize = 0;
    let mut hi: usize = v.len();
    while lo < hi
        invariant
            lo <= hi <= v.len(),
            is_ladder(v@),
            forall|j: int| 0 <= j < lo ==> (#[trigger] v[j]).0.units() < price.units(),
            forall|j: int| hi <= j < v.len() ==> (#[trigger] v[j]).0.units() >= price.units(),
        decreases hi - lo,
    {
        let mid: usize = lo + (hi - lo) / 2;
        if v[mid].0.less(price) {
            lo = mid + 1;
        } else {
            hi = mid;
        }
    }
    let found = lo < v.len() && !price.less(v[lo].0);
    (lo, found)
}

/// Sets the quantity at a price, or takes the price out where the quantity is zero.
fn change_level(v: &mut Vec<Level>, price: Decimal, qty: Decimal)
    requires
        is_ladder(old(v)@),
    ensures
        is_ladder(final(v)@),
        level_map(final(v)@) == changed(level_map(old(v)@), (price, qty)),
{
    let ghost before = v@;
    let (at, found) = locate(v, price);
    proof {
        lemma_level_map(before);
    }
    if qty.is_zero() {
        if found {
            let _ = v.remove(at);
            proof {
                lemma_removed(before, at as int);
            }
        } else {
            proof {
                lemma_absent(before, at as int, price.units());
                assert(level_map(before).remove(price.units()) =~= level_map(before));
            }
        }
    } else if found {
        let kept = v[at].0;
        v.set(at, (kept, qty));
        proof {
            lemma_updated(before, at as int, (kept, qty));
        }
    } else {
        v.insert(at, (price, qty));
        proof {
            lemma_absent(before, at as int, price.units());
            lemma_inserted(before, at as int, (price, qty));
        }
    }
}

/// Sets the level at a price, with the price as it is written here.
fn put_level(v: &mut Vec<Level>, price: Decimal, qty: Decimal)
    requires
        is_ladder(old(v)@),
        qty.coefficient() != 0,
    ensures
        is_ladder(final(v)@),
        level_map(final(v)@) == level_map(old(v)@).insert(price.units(), (price, qty)),
{
    let ghost before = v@;
    let (at, found) = locate(v, price);
    if found {
        v.set(at, (price, qty));
        proof {
            lemma_updated(before, at as int, (price, qty));
        }
    } else {
        v.insert(at, (price, qty));
        proof {
            lemma_inserted(before, at as int, (price, qty));
        }
    }
}

proof fn lemma_absent(v: Seq<Level>, at: int, k: int)
    requires
        is_ladder(v),
        0 <= at <= v.len(),
        forall|j: int| 0 <= j < at ==> (#[trigger] v[j]).0.units() < k,
        forall|j: int| at <= j < v.len() ==> (#[trigger] v[j]).0.units() >= k,
        !(at < v.len() && v[at].0.units() == k),
    ensures
        !level_map(v).contains_key(k),
{
    lemma_level_map(v);
    if level_map(v).contains_key(k) {
        let i = choose|i: int| 0 <= i < v.len() && (#[trigger] v[i]).0.units() == k;
        if i > at {
            assert(v[at].0.units() < v[i].0.units());
        }
    }
}

proof fn lemma_removed(v: Seq<Level>, at: int)
    requires
        is_ladder(v),
        0 <= at < v.len(),
    ensures
        is_ladder(v.remove(at)),
        level_map(v.remove(at)) == level_map(v).remove(v[at].0.units()),
{
    let w = v.remove(at);
    let k = v[at].0.units();
    assert forall|i: int| 0 <= i < w.len() implies #[trigger] w[i] == (if i < at {
        v[i]
    } else {
        v[i + 1]
    }) by {}
    assert(is_ladder(w));
    lemma_level_map(v);
    lemma_level_map(w);
    assert forall|k2: int| level_map(w).contains_key(k2) <==> level_map(v).remove(k).contains_key(
        k2,
    ) by {
        if level_map(w).contains_key(k2) {
            let i = choose|i: int| 0 <= i < w.len() && (#[trigger] w[i]).0.units() == k2;
            let j = if i < at { i } else { i + 1 };
            assert(w[i] == v[j]);
            assert(level_map(v).contains_key(v[j].0.units()));
            if j < at {
                assert(v[j].0.units() < v[at].0.units());
            } else {
                assert(v[at].0.units() < v[j].0.units());
            }
        }
        if level_map(v).contains_key(k2) && k2 != k {
            let j = choose|j: int| 0 <= j < v.len() && (#[trigger] v[j]).0.units() == k2;
            let i = if j < at { j } else { j - 1 };
            assert(w[i] == v[j]);
            assert(level_map(w).contains_key(w[i].0.units()));
        }
    }
    assert forall|k2: int| #[trigger] level_map(w).contains_key(k2) implies level_map(w)[k2]
        == level_map(v).remove(k)[k2] by {
        let i = choose|i: int| 0 <= i < w.len() && (#[trigger] w[i]).0.units() == k2;
        let j = if i < at { i } else { i + 1 };
        assert(w[i] == v[j]);
        assert(level_map(v)[v[j].0.units()] == v[j]);
        assert(level_map(v).remove(k).contains_key(k2));
    }
    assert(level_map(w) =~= level_map(v).remove(k));
}

proof fn lemma_updated(v: Seq<Level>, at: int, l: Level)
    requires
        is_ladder(v),
        0 <= at < v.len(),
        l.0.units() == v[at].0.units(),
        l.1.coefficient() != 0,
    ensures
        is_ladder(v.update(at, l)),
        level_map(v.update(at, l)) == level_map(v).insert(l.0.units(), l),
{
    let w = v.update(at, l);
    let k = l.0.units();
    assert(is_ladder(w));
    lemma_level_map(v);
    lemma_level_map(w);
    let m = level_map(v).insert(k, l);
    assert forall|k2: int| level_map(w).contains_key(k2) <==> m.contains_key(k2) by {
        if level_map(w).contains_key(k2) {
            let i = choose|i: int| 0 <= i < w.len() && (#[trigger] w[i]).0.units() == k2;
            assert(level_map(v).contains_key(v[i].0.units()));
        }
        if level_map(v).contains_key(k2) {
            let i = choose|i: int| 0 <= i < v.len() && (#[trigger] v[i]).0.units() == k2;
            assert(level_map(w).contains_key(w[i].0.units()));
        }
        assert(level_map(w).contains_key(w[at].0.units()));
    }
    assert forall|k2: int| #[trigger] level_map(w).contains_key(k2) implies level_map(w)[k2]
        == m[k2] by {
        let i = choose|i: int| 0 <= i < w.len() && (#[trigger] w[i]).0.units() == k2;
        assert(level_map(w)[w[i].0.units()] == w[i]);
        if i != at {
            assert(w[i] == v[i]);
            assert(level_map(v)[v[i].0.units()] == v[i]);
            assert(v[i].0.units() != v[at].0.units());
        }
    }
    assert(level_map(w) =~= m);
}

proof fn lemma_inserted(v: Seq<Level>, at: int, l: Level)
    requires
        is_ladder(v),
        0 <= at <= v.len(),
        forall|j: int| 0 <= j < at ==> (#[trigger] v[j]).0.units() < l.0.units(),
        forall|j: int| at <= j < v.len() ==> (#[trigger] v[j]).0.units() >= l.0.units(),
        !(at < v.len() && v[at].0.units() == l.0.units()),
        l.1.coefficient() != 0,
    ensures
        is_ladder(v.insert(at, l)),
        level_map(v.insert(at, l)) == level_map(v).insert(l.0.units(), l),
{
    let w = v.insert(at, l);
    let k = l.0.units();
    assert forall|i: int| 0 <= i < w.len() implies #[trigger] w[i] == (if i < at {
        v[i]
    } else if i == at {
        l
    } else {
        v[i - 1]
    }) by {}
    assert forall|j: int| at <= j < v.len() implies (#[trigger] v[j]).0.units() > k by {
        if j > at {
            assert(v[at].0.units() < v[j].0.units());
        }
    }
    assert(is_ladder(w));
    lemma_level_map(v);
    lemma_level_map(w);
    let m = level_map(v).insert(k, l);
    assert forall|k2: int| level_map(w).contains_key(k2) <==> m.contains_key(k2) by {
        if level_map(w).contains_key(k2) {
            let i = choose|i: int| 0 <= i < w.len() && (#[trigger] w[i]).0.units() == k2;
            if i < at {
                assert(level_map(v).contains_key(v[i].0.units()));
            } else if i > at {
                assert(level_map(v).contains_key(v[i - 1].0.units()));
            }
        }
        if level_map(v).contains_key(k2) {
            let j = choose|j: int| 0 <= j < v.len() && (#[trigger] v[j]).0.units() == k2;
            let i = if j < at { j } else { j + 1 };
            assert(w[i] == v[j]);
            assert(level_map(w).contains_key(w[i].0.units()));
        }
        assert(level_map(w).contains_key(w[at].0.units()));
    }
    assert forall|k2: int| #[trigger] level_map(w).contains_key(k2) implies level_map(w)[k2]
        == m[k2] by {
        let i = choose|i: int| 0 <= i < w.len() && (#[trigger] w[i]).0.units() == k2;
        assert(level_map(w)[w[i].0.units()] == w[i]);
        if i < at {
            assert(level_map(v)[v[i].0.units()] == v[i]);
        } else if i > at {
            assert(level_map(v)[v[i - 1].0.units()] == v[i - 1]);
        }
    }
    assert(level_map(w) =~= m);
}

impl OrderBook {
    /// The bids, the lowest price first.
    pub closed spec fn bids(self) -> Seq<Level> {
        self.bids@
    }

    /// The asks, the lowest price first.
    pub closed spec fn asks(self) -> Seq<Level> {
        self.asks@
    }

    /// Whether both sides are ladders.
    #[verifier::type_invariant]
    pub open spec fn wf(self) -> bool {
        is_ladder(self.bids()) && is_ladder(self.asks())
    }

    /// The highest bid.
    pub open spec fn top_bid(self) -> Option<Level> {
        if self.bids().len() == 0 {
            None
        } else {
            Some(self.bids().last())
        }
    }

    /// The lowest ask.
    pub open spec fn top_ask(self) -> Option<Level> {
        if self.asks().len() == 0 {
            None
        } else {
            Some(self.asks().first())
        }
    }

    /// The best `n` bids, the highest price first.
    pub open spec fn top_bids(self, n: int) -> Seq<Level> {
        first_levels(self.bids().reverse(), n)
    }

    /// The best `n` asks, the lowest price first.
    pub open spec fn top_asks(self, n: int) -> Seq<Level> {
        first_levels(self.asks(), n)
    }

    /// Whether the highest bid reaches the lowest ask.
    pub open spec fn crossed(self) -> bool {
        match (self.top_bid(), self.top_ask()) {
            (Some(b), Some(a)) => b.0.units() >= a.0.units(),
            _ => false,
        }
    }

    /// Takes every level out.
    pub fn clear(&mut self)
        ensures
            final(self).wf(),
            final(self).bids() == Seq::<Level>::empty(),
            final(self).asks() == Seq::<Level>::empty(),
    {
        proof {
            use_type_invariant(&*self);
        }
        self.bids = Vec::new();
        self.asks = Vec::new();
    }

    /// Lets the book hold exactly the given levels.
    pub fn replace(&mut self, bids: Vec<Level>, asks: Vec<Level>)
        ensures
            final(self).wf(),
            level_map(final(self).bids()) == listed(bids@),
            level_map(final(self).asks()) == listed(asks@),
    {
        proof {
            use_type_invariant(&*self);
        }
        self.bids = collect_levels(&bids);
        self.asks = collect_levels(&asks);
    }

    /// Applies changes to both sides.
    pub fn apply_delta(&mut self, bids: &[Level], asks: &[Level])
        ensures
            final(self).wf(),
            level_map(final(self).bids()) == all_changed(level_map(old(self).bids()), bids@),
            level_map(final(self).asks()) == all_changed(level_map(old(self).asks()), asks@),
    {
        proof {
            use_type_invariant(&*self);
        }
        let mut own_bids: Vec<Level> = Vec::new();
        let mut own_asks: Vec<Level> = Vec::new();
        std::mem::swap(&mut own_bids, &mut self.bids);
        std::mem::swap(&mut own_asks, &mut self.asks);
        change_levels(&mut own_bids, bids);
        change_levels(&mut own_asks, asks);
        self.bids = own_bids;
        self.asks = own_asks;
    }

    /// The highest bid.
    pub fn best_bid(&self) -> (r: Option<Level>)
        ensures
            r == self.top_bid(),
    {
        let n: usize = self.bids.len();
        if n == 0 {
            None
        } else {
            Some(self.bids[n - 1])
        }
    }

    /// The lowest ask.
    pub fn best_ask(&self) -> (r: Option<Level>)
        ensures
            r == self.top_ask(),
    {
        if self.asks.len() == 0 {
            None
        } else {
            Some(self.asks[0])
        }
    }

    /// The best `n` levels of each side, the best first.
    pub fn top(&self, n: usize) -> (r: (Vec<Level>, Vec<Level>))
        ensures
            r.0@ == self.top_bids(n as int),
            r.1@ == self.top_asks(n as int),
    {
        let mut bids: Vec<Level> = Vec::new();
        let mut asks: Vec<Level> = Vec::new();
        let nb: usize = if n < self.bids.len() {
            n
        } else {
            self.bids.len()
        };
        let na: usize = if n < self.asks.len() {
            n
        } else {
            self.asks.len()
        };
        for i in 0..nb
            invariant
                nb <= self.bids.len(),
                bids@ == self.bids@.reverse().take(i as int),
        {
            bids.push(self.bids[self.bids.len() - 1 - i]);
        }
        for i in 0..na
            invariant
                na <= self.asks.len(),
                asks@ == self.asks@.take(i as int),
        {
            asks.push(self.asks[i]);
        }
        assert(bids@ =~= self.top_bids(n as int));
        assert(asks@ =~= self.top_asks(n as int));
        (bids, asks)
    }

    /// Whether the highest bid reaches the lowest ask.
    pub fn is_crossed(&self) -> (r: bool)
        ensures
            r == self.crossed(),
    {
        match (self.best_bid(), self.best_ask()) {
            (Some(b), Some(a)) => !b.0.less(a.0),
            _ => false,
        }
    }

    /// How many levels each side has.
    pub fn depth(&self) -> (r: (usize, usize))
        ensures
            r.0 == self.bids().len(),
            r.1 == self.asks().len(),
    {
        (self.bids.len(), self.asks.len())
    }
}

impl Default for OrderBook {
    /// A book without levels.
    fn default() -> (r: OrderBook)
        ensures
            r.wf(),
            r.bids() == Seq::<Level>::empty(),
            r.asks() == Seq::<Level>::empty(),
    {
        OrderBook { bids: Vec::new(), asks: Vec::new() }
    }
}

impl Clone for OrderBook {
    /// A book with the same levels.
    fn clone(&self) -> (r: OrderBook)
        ensures
            r.wf(),
            r.bids() == self.bids(),
            r.asks() == self.asks(),
    {
        proof {
            use_type_invariant(self);
        }
        OrderBook { bids: copy_levels(&self.bids), asks: copy_levels(&self.asks) }
    }
}

fn copy_levels(v: &Vec<Level>) -> (r: Vec<Level>)
    ensures
        r@ == v@,
{
    let mut r: Vec<Level> = Vec::new();
    for i in 0..v.len()
        invariant
            r@ == v@.take(i as int),
    {
        r.push(v[i]);
    }
    assert(v@.take(v.len() as int) =~= v@);
    r
}

fn collect_levels(levels: &Vec<Level>) -> (r: Vec<Level>)
    ensures
        is_ladder(r@),
        level_map(r@) == listed(levels@),
{
    let mut r: Vec<Level> = Vec::new();
    for i in 0..levels.len()
        invariant
            is_ladder(r@),
            level_map(r@) == listed(levels@.take(i as int)),
    {
        let (price, qty) = levels[i];
        proof {
            assert(levels@.take(i + 1).drop_last() =~= levels@.take(i as int));
        }
        if !qty.is_zero() {
            put_level(&mut r, price, qty);
        }
    }
    assert(levels@.take(levels.len() as int) =~= levels@);
    r
}

fn change_levels(v: &mut Vec<Level>, delta: &[Level])
    requires
        is_ladder(old(v)@),
    ensures
        is_ladder(final(v)@),
        level_map(final(v)@) == all_changed(level_map(old(v)@), delta@),
{
    let ghost before = v@;
    for i in 0..delta.len()
        invariant
            is_ladder(v@),
            level_map(v@) == all_changed(level_map(before), delta@.take(i as int)),
    {
        let (price, qty) = delta[i];
        proof {
            assert(delta@.take(i + 1).drop_last() =~= delta@.take(i as int));
        }
        change_level(v, price, qty);
    }
    assert(delta@.take(delta.len() as int) =~= delta@);
}

/// Which of the two texts of a level could not be read.
#[derive(Clone, Copy, Debug, PartialEq, Eq, Structural)]
pub enum LevelField {
    Price,
    Qty,
}

/// A level whose price or quantity is no decimal.
#[derive(Debug)]
pub struct LevelError {
    pub field: LevelField,
    /// The text as it was received.
    pub raw: String,
    /// Why it is no decimal.
    pub reason: String,
}

/// Whether both texts of a level are decimals.
pub open spec fn is_readable(raw: (String, String)) -> bool {
    parsed(raw.0@) is Ok && parsed(raw.1@) is Ok
}

/// The level that two readable texts stand for.
pub open spec fn level_of(raw: (String, String)) -> Level {
    (parsed(raw.0@)->Ok_0, parsed(raw.1@)->Ok_0)
}

/// The levels that readable texts stand for.
pub open spec fn levels_of(raw: Seq<(String, String)>) -> Seq<Level> {
    raw.map_values(|r: (String, String)| level_of(r))
}

/// Whether every level of a list can be read.
pub open spec fn all_readable(raw: Seq<(String, String)>) -> bool {
    forall|i: int| 0 <= i < raw.len() ==> is_readable(#[trigger] raw[i])
}

/// Whether `e` reports what is wrong with an unreadable level: its price where that is no decimal,
/// else its quantity.
pub open spec fn reports(e: LevelError, raw: (String, String)) -> bool {
    if parsed(raw.0@) is Err {
        &&& e.field == LevelField::Price
        &&& e.raw@ == raw.0@
        &&& e.reason@ == parsed(raw.0@)->Err_0
    } else {
        &&& e.field == LevelField::Qty
        &&& e.raw@ == raw.1@
        &&& e.reason@ == parsed(raw.1@)->Err_0
    }
}

/// Whether `e` reports the first unreadable level of a list.
pub open spec fn reports_first(e: LevelError, raw: Seq<(String, String)>) -> bool {
    exists|i: int|
        0 <= i < raw.len() && !is_readable(#[trigger] raw[i]) && all_readable(raw.take(i))
            && reports(e, raw[i])
}

/// Reads levels from the texts of their prices and quantities.
pub fn parse_levels(raw: &[(String, String)]) -> (r: Result<Vec<Level>, LevelError>)
    ensures
        r is Ok <==> all_readable(raw@),
        r matches Ok(levels) ==> levels@ == levels_of(raw@),
        r matches Err(e) ==> reports_first(e, raw@),
{
    let mut levels: Vec<Level> = Vec::new();
    for i in 0..raw.len()
        invariant
            all_readable(raw@.take(i as int)),
            levels@ == levels_of(raw@.take(i as int)),
    {
        let price_text: &String = &raw[i].0;
        let qty_text: &String = &raw[i].1;
        let price = match Decimal::parse(price_text.as_str()) {
            Ok(d) => d,
            Err(reason) => {
                return Err(
                    LevelError { field: LevelField::Price, raw: price_text.clone(), reason },
                );
            },
        };
        let qty = match Decimal::parse(qty_text.as_str()) {
            Ok(d) => d,
            Err(reason) => {
                return Err(LevelError { field: LevelField::Qty, raw: qty_text.clone(), reason });
            },
        };
        levels.push((price, qty));
        proof {
            let t = raw@.take(i as int);
            assert(raw@.take(i + 1) =~= t.push(raw@[i as int]));
            assert(levels_of(raw@.take(i + 1)) =~= levels_of(t).push(level_of(raw@[i as int])));
        }
    }
    assert(raw@.take(raw.len() as int) =~= raw@);
    Ok(levels)
}

impl LevelError {
    /// The error as text.
    pub open spec fn text(self) -> Seq<char> {
        let what = match self.field {
            LevelField::Price => "bad price "@,
            LevelField::Qty => "bad qty "@,
        };
        what + quoted(self.raw@) + ": "@ + self.reason@
    }

    /// The error as text.
    pub fn message(&self) -> (r: String)
        ensures
            r@ == self.text(),
    {
        let what: &str = match self.field {
            LevelField::Price => "bad price ",
            LevelField::Qty => "bad qty ",
        };
        let mut r = String::from_str(what);
        r.append(quote(self.raw.as_str()).as_str());
        r.append(": ");
        r.append(self.reason.as_str());
        r
    }
}

/// A text in quotation marks, as the standard library's `Debug` for strings writes it.
pub uninterp spec fn quoted(text: Seq<char>) -> Seq<char>;

/// `Debug` of `str`, through `format!`: the text in quotation marks, with what needs it escaped. The
/// result is named and nothing more is said of it.
#[verifier::external_body]
fn quote(text: &str) -> (r: String)
    ensures
        r@ == quoted(text@),
{
    format!("{:?}", text)
}

} // verus!
