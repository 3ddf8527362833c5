//! What holds of the account over any series of calls.

use crate::book::OrderBook;
use crate::decimal::Decimal;
use crate::execution::{Lot, Terms};
use crate::matching::{
    after_retry, filled_of, fills_show, is_cancelled, is_finished, is_placed, is_rechecked,
    limits_run, results_show, retried, shows, takes_back, MatchResult, Order, OrderInner,
    OrderStatus, TradingState,
};
use crate::position::PositionInner;
use vstd::prelude::*;

verus! {

/// A call that changes the account, with what came back.
pub enum Call {
    /// An order was placed.
    Place {
        result: MatchResult,
        terms: Terms,
        symbol: String,
        quantity: Decimal,
        binance: OrderBook,
        coindcx: OrderBook,
        now: u64,
    },
    /// The waiting orders were tried again.
    Recheck { results: Seq<MatchResult>, binance: OrderBook, coindcx: OrderBook, now: u64 },
    /// An order was to be taken back.
    Cancel { order: Option<Order>, id: Seq<char>, now: u64 },
}

/// Whether a call leads from one account to another.
pub open spec fn is_call(before: TradingState, after: TradingState, call: Call) -> bool {
    match call {
        Call::Place { result, terms, symbol, quantity, binance, coindcx, now } => is_placed(
            before,
            after,
            result,
            terms,
            symbol,
            quantity,
            binance,
            coindcx,
            now,
        ),
        Call::Recheck { results, binance, coindcx, now } => is_rechecked(
            before,
            after,
            results,
            binance,
            coindcx,
            now,
        ),
        Call::Cancel { order, id, now } => is_cancelled(before, after, order, id, now),
    }
}

/// Whether an account is new: it has cash and nothing else.
pub open spec fn is_new(st: TradingState, cash: Decimal) -> bool {
    &&& st.cash() == cash
    &&& st.holds().len() == 0
    &&& st.waiting().len() == 0
    &&& st.history().len() == 0
    &&& st.fill_log().len() == 0
}

/// Whether calls lead from a new account through the given ones.
pub open spec fn is_run(cash: Decimal, states: Seq<TradingState>, calls: Seq<Call>) -> bool {
    &&& states.len() == calls.len() + 1
    &&& is_new(states[0], cash)
    &&& forall|i: int| 0 <= i < states.len() ==> (#[trigger] states[i]).wf()
    &&& forall|i: int|
        0 <= i < calls.len() ==> is_call(states[i], states[i + 1], #[trigger] calls[i])
}

/// A run without its last call.
pub proof fn lemma_run_before(cash: Decimal, states: Seq<TradingState>, calls: Seq<Call>)
    requires
        is_run(cash, states, calls),
        calls.len() > 0,
    ensures
        is_run(cash, states.drop_last(), calls.drop_last()),
        is_call(states.drop_last().last(), states.last(), calls.last()),
        states.last().wf(),
        states.drop_last().last().wf(),
{
    let (s, c) = (states.drop_last(), calls.drop_last());
    let n = calls.len() - 1;
    assert(is_call(states[n], states[n + 1], calls[n]));
    assert forall|i: int| 0 <= i < s.len() implies (#[trigger] s[i]).wf() by {
        assert(s[i] == states[i]);
    }
    assert forall|i: int| 0 <= i < c.len() implies is_call(s[i], s[i + 1], #[trigger] c[i]) by {
        assert(c[i] == calls[i]);
    }
}

/// Whether one list begins with another.
pub open spec fn extends<A>(before: Seq<A>, after: Seq<A>) -> bool {
    before.len() <= after.len() && after.take(before.len() as int) == before
}

/// Nothing leaves the log of fills or the history: every call only adds to them.
pub proof fn law_records_only_grow(before: TradingState, after: TradingState, call: Call)
    requires
        is_call(before, after, call),
    ensures
        extends(before.fill_log(), after.fill_log()),
        extends(before.history(), after.history()),
{
    assert(before.fill_log().take(before.fill_log().len() as int) =~= before.fill_log());
    assert(before.history().take(before.history().len() as int) =~= before.history());
    assert(after.fill_log().take(before.fill_log().len() as int) =~= before.fill_log());
    assert(after.history().take(before.history().len() as int) =~= before.history());
}

/// Over any series of calls the log of fills and the history only grow, and every order in the
/// history is filled or cancelled.
pub proof fn law_run_keeps_its_records(
    cash: Decimal,
    states: Seq<TradingState>,
    calls: Seq<Call>,
    from: int,
)
    requires
        is_run(cash, states, calls),
        0 <= from < states.len(),
    ensures
        extends(states[from].fill_log(), states.last().fill_log()),
        extends(states[from].history(), states.last().history()),
        forall|i: int|
            0 <= i < states.last().history().len() ==> is_finished(
                #[trigger] states.last().history()[i],
            ),
    decreases calls.len(),
{
    let end = states.last();
    assert(states[states.len() - 1].wf());
    if from == states.len() - 1 {
        assert(end.fill_log().take(end.fill_log().len() as int) =~= end.fill_log());
        assert(end.history().take(end.history().len() as int) =~= end.history());
    } else {
        let (s, c) = (states.drop_last(), calls.drop_last());
        lemma_run_before(cash, states, calls);
        law_run_keeps_its_records(cash, s, c, from);
        law_records_only_grow(s.last(), end, calls.last());
        assert(s[from] == states[from]);
        assert(end.fill_log().take(s[from].fill_log().len() as int) =~= s.last().fill_log().take(
            s[from].fill_log().len() as int,
        ));
        assert(end.history().take(s[from].history().len() as int) =~= s.last().history().take(
            s[from].history().len() as int,
        ));
    }
}

/// The ids of orders.
pub open spec fn ids_of(orders: Seq<OrderInner>) -> Seq<Seq<char>> {
    orders.map_values(|o: OrderInner| o.id@)
}

/// The ids of orders that are shown.
pub open spec fn shown_ids(orders: Seq<Order>) -> Seq<Seq<char>> {
    orders.map_values(|o: Order| o.id@)
}

/// The ids of every order that the account knows: the waiting ones, then the history.
pub open spec fn known_ids(st: TradingState) -> Seq<Seq<char>> {
    ids_of(st.waiting()) + shown_ids(st.history())
}

/// The ids that a call gives out.
pub open spec fn new_ids(call: Call) -> Seq<Seq<char>> {
    match call {
        Call::Place { result, .. } => seq![result.order.id@],
        _ => Seq::empty(),
    }
}

/// The ids that calls give out, in their order.
pub open spec fn placed_ids(calls: Seq<Call>) -> Seq<Seq<char>>
    decreases calls.len(),
{
    if calls.len() == 0 {
        Seq::empty()
    } else {
        placed_ids(calls.drop_last()) + new_ids(calls.last())
    }
}

/// The ids of the orders that are wholly filled.
spec fn done_ids(matched: Seq<(OrderInner, Seq<Lot>)>) -> Seq<Seq<char>>
    decreases matched.len(),
{
    if matched.len() == 0 {
        Seq::empty()
    } else if matched.last().0.status == OrderStatus::Filled {
        done_ids(matched.drop_last()).push(matched.last().0.id@)
    } else {
        done_ids(matched.drop_last())
    }
}

/// Trying orders again keeps each of them: it waits on or is wholly filled.
proof fn lemma_run_keeps_ids(
    orders: Seq<OrderInner>,
    cash: Decimal,
    h: Seq<(Seq<char>, PositionInner)>,
    binance: OrderBook,
    coindcx: OrderBook,
)
    requires
        limits_run(orders, cash, h, binance, coindcx) is Some,
    ensures
        ({
            let s = limits_run(orders, cash, h, binance, coindcx)->0;
            &&& ids_of(orders).to_multiset() == ids_of(s.waiting).to_multiset().add(
                done_ids(s.matched).to_multiset(),
            )
            &&& is_subsequence(ids_of(s.waiting), ids_of(orders))
        }),
    decreases orders.len(),
{
    broadcast use vstd::seq_lib::group_to_multiset_ensures;
    broadcast use vstd::multiset::group_multiset_axioms;

    let e = limits_run(orders, cash, h, binance, coindcx)->0;
    if orders.len() == 0 {
        assert(ids_of(orders) =~= Seq::empty());
        assert(ids_of(e.waiting) =~= Seq::empty());
        assert(ids_of(orders).to_multiset() =~= ids_of(e.waiting).to_multiset().add(
            done_ids(e.matched).to_multiset(),
        ));
    } else {
        let rest = orders.drop_last();
        let o = orders.last();
        lemma_run_keeps_ids(rest, cash, h, binance, coindcx);
        let s = limits_run(rest, cash, h, binance, coindcx)->0;
        let x = retried(o, s.cash, s.holds, binance, coindcx)->0;
        assert(e == after_retry(s, x));
        assert(x.order.id == o.id);
        assert(ids_of(orders) =~= ids_of(rest).push(o.id@));
        if x.trades.len() > 0 {
            assert(s.matched.push((x.order, x.trades)).drop_last() =~= s.matched);
        }
        if x.trades.len() > 0 && x.order.status == OrderStatus::Filled {
            assert(done_ids(e.matched) == done_ids(s.matched).push(o.id@));
            lemma_subsequence_of_more(ids_of(e.waiting), ids_of(rest), o.id@);
        } else {
            assert(ids_of(e.waiting) =~= ids_of(s.waiting).push(o.id@));
            assert(done_ids(e.matched) == done_ids(s.matched));
            lemma_subsequence_push(ids_of(s.waiting), ids_of(rest), o.id@);
        }
        assert(ids_of(orders).to_multiset() =~= ids_of(e.waiting).to_multiset().add(
            done_ids(e.matched).to_multiset(),
        ));
    }
}

/// The results of a recheck put the wholly filled orders into the history.
proof fn lemma_filled_ids(
    r: Seq<MatchResult>,
    matched: Seq<(OrderInner, Seq<Lot>)>,
    now: u64,
)
    requires
        results_show(r, matched, now),
    ensures
        shown_ids(filled_of(r)) == done_ids(matched),
    decreases r.len(),
{
    if r.len() == 0 {
        assert(shown_ids(filled_of(r)) =~= done_ids(matched));
    } else {
        let (a, b) = (r.drop_last(), matched.drop_last());
        assert(results_show(a, b, now)) by {
            assert forall|i: int| 0 <= i < a.len() implies {
                &&& shows((#[trigger] a[i]).order, b[i].0, now)
                &&& fills_show(
                    a[i].new_fills@,
                    b[i].1,
                    b[i].0.id@,
                    b[i].0.side,
                    now,
                )
            } by {
                assert(a[i] == r[i] && b[i] == matched[i]);
            }
        }
        lemma_filled_ids(a, b, now);
        assert(r[r.len() - 1].order.id@ == matched.last().0.id@);
        assert(r[r.len() - 1].order.status == matched.last().0.status);
        assert(shown_ids(filled_of(r)) =~= done_ids(matched));
    }
}

/// No call loses or doubles an order: the account knows the orders that it knew, and the one that was
/// placed.
pub proof fn law_call_keeps_every_order(before: TradingState, after: TradingState, call: Call)
    requires
        is_call(before, after, call),
    ensures
        known_ids(after).to_multiset() == known_ids(before).to_multiset().add(
            new_ids(call).to_multiset(),
        ),
{
    broadcast use vstd::seq_lib::group_to_multiset_ensures;
    broadcast use vstd::multiset::group_multiset_axioms;
    broadcast use vstd::seq_lib::lemma_multiset_commutative;

    let (w, h) = (before.waiting(), before.history());
    let none = Seq::<Seq<char>>::empty();
    assert(none.to_multiset() =~= vstd::multiset::Multiset::empty());
    match call {
        Call::Place { result, .. } => {
            let id = result.order.id@;
            assert(none.push(id) =~= seq![id]);
            assert(none.push(id).to_multiset() =~= none.to_multiset().insert(id));
            if after.history().len() == h.len() {
                assert(ids_of(after.waiting()) =~= ids_of(w).push(id));
            } else {
                assert(shown_ids(after.history()) =~= shown_ids(h).push(id));
            }
        },
        Call::Recheck { results, binance, coindcx, now } => {
            let s = limits_run(w, before.cash(), before.holds(), binance, coindcx)->0;
            lemma_run_keeps_ids(w, before.cash(), before.holds(), binance, coindcx);
            lemma_filled_ids(results, s.matched, now);
            assert(shown_ids(after.history()) =~= shown_ids(h) + done_ids(s.matched));
        },
        Call::Cancel { order, id, now } => {
            if let Some(order) = order {
                let i = choose|i: int| takes_back(w, after.waiting(), order, id, now, i);
                assert(ids_of(after.waiting()) =~= ids_of(w).remove(i));
                assert(ids_of(w)[i] == order.id@);
                assert(ids_of(w).contains(order.id@));
                assert(shown_ids(after.history()) =~= shown_ids(h).push(order.id@));
            }
        },
    }
    assert(known_ids(after).to_multiset() =~= known_ids(before).to_multiset().add(
        new_ids(call).to_multiset(),
    ));
}

/// Over any series of calls the account knows exactly the orders that were placed. Where these have
/// different ids, no id stands twice in the history, twice among the waiting orders, or in both.
pub proof fn law_run_keeps_every_order(
    cash: Decimal,
    states: Seq<TradingState>,
    calls: Seq<Call>,
)
    requires
        is_run(cash, states, calls),
    ensures
        known_ids(states.last()).to_multiset() == placed_ids(calls).to_multiset(),
        placed_ids(calls).no_duplicates() ==> {
            let (waiting, history) = (
                ids_of(states.last().waiting()),
                shown_ids(states.last().history()),
            );
            &&& waiting.no_duplicates()
            &&& history.no_duplicates()
            &&& forall|id: Seq<char>| !(waiting.contains(id) && #[trigger] history.contains(id))
        },
    decreases calls.len(),
{
    broadcast use vstd::seq_lib::group_to_multiset_ensures;
    broadcast use vstd::multiset::group_multiset_axioms;

    let known = known_ids(states.last());
    if calls.len() == 0 {
        assert(known =~= placed_ids(calls));
    } else {
        let (s, c) = (states.drop_last(), calls.drop_last());
        lemma_run_before(cash, states, calls);
        law_run_keeps_every_order(cash, s, c);
        law_call_keeps_every_order(s.last(), states.last(), calls.last());
        vstd::seq_lib::lemma_multiset_commutative(placed_ids(c), new_ids(calls.last()));
    }
    if placed_ids(calls).no_duplicates() {
        placed_ids(calls).lemma_multiset_has_no_duplicates();
        known.lemma_multiset_has_no_duplicates_conv();
        let (waiting, history) = (
            ids_of(states.last().waiting()),
            shown_ids(states.last().history()),
        );
        let n = waiting.len();
        assert forall|i: int, j: int| 0 <= i < j < n implies waiting[i] != waiting[j] by {
            assert(known[i] == waiting[i] && known[j] == waiting[j]);
        }
        assert forall|i: int, j: int| 0 <= i < j < history.len() implies history[i]
            != history[j] by {
            assert(known[n + i] == history[i] && known[n + j] == history[j]);
        }
        assert forall|id: Seq<char>| !(waiting.contains(id) && #[trigger] history.contains(id)) by {
            if waiting.contains(id) && history.contains(id) {
                let i = choose|i: int| 0 <= i < n && waiting[i] == id;
                let j = choose|j: int| 0 <= j < history.len() && history[j] == id;
                assert(known[i] == id && known[n + j] == id);
            }
        }
    }
}

/// Whether one list is another with some of its items left out.
pub open spec fn is_subsequence<A>(s: Seq<A>, t: Seq<A>) -> bool
    decreases t.len(),
{
    s.len() == 0 || (t.len() > 0 && ((s.last() == t.last() && is_subsequence(
        s.drop_last(),
        t.drop_last(),
    )) || is_subsequence(s, t.drop_last())))
}

proof fn lemma_subsequence_self<A>(s: Seq<A>)
    ensures
        is_subsequence(s, s),
    decreases s.len(),
{
    if s.len() > 0 {
        lemma_subsequence_self(s.drop_last());
    }
}

proof fn lemma_subsequence_push<A>(s: Seq<A>, t: Seq<A>, a: A)
    requires
        is_subsequence(s, t),
    ensures
        is_subsequence(s.push(a), t.push(a)),
{
    assert(s.push(a).drop_last() =~= s);
    assert(t.push(a).drop_last() =~= t);
}

proof fn lemma_subsequence_of_more<A>(s: Seq<A>, t: Seq<A>, a: A)
    requires
        is_subsequence(s, t),
    ensures
        is_subsequence(s, t.push(a)),
{
    assert(t.push(a).drop_last() =~= t);
}

proof fn lemma_subsequence_through<A>(s: Seq<A>, t: Seq<A>, u: Seq<A>)
    requires
        is_subsequence(s, t),
        is_subsequence(t, u),
    ensures
        is_subsequence(s, u),
    decreases u.len(),
{
    if s.len() > 0 {
        let (t1, u1) = (t.drop_last(), u.drop_last());
        if t.last() == u.last() && is_subsequence(t1, u1) {
            if s.last() == t.last() && is_subsequence(s.drop_last(), t1) {
                lemma_subsequence_through(s.drop_last(), t1, u1);
            } else {
                lemma_subsequence_through(s, t1, u1);
            }
        } else {
            lemma_subsequence_through(s, t, u1);
        }
    }
}

proof fn lemma_subsequence_remove<A>(s: Seq<A>, i: int)
    requires
        0 <= i < s.len(),
    ensures
        is_subsequence(s.remove(i), s),
    decreases s.len(),
{
    let r = s.remove(i);
    if i == s.len() - 1 {
        assert(r =~= s.drop_last());
        lemma_subsequence_self(r);
    } else {
        assert(r.drop_last() =~= s.drop_last().remove(i));
        assert(r.last() == s.last());
        lemma_subsequence_remove(s.drop_last(), i);
    }
}

/// No call changes the order of the waiting orders: those that wait on keep it, and a new one comes
/// last.
pub proof fn law_call_keeps_the_queue(before: TradingState, after: TradingState, call: Call)
    requires
        is_call(before, after, call),
    ensures
        is_subsequence(ids_of(after.waiting()), ids_of(before.waiting()) + new_ids(call)),
{
    let w = before.waiting();
    let ids = ids_of(w);
    lemma_subsequence_self(ids);
    match call {
        Call::Place { result, .. } => {
            let id = result.order.id@;
            assert(ids + seq![id] =~= ids.push(id));
            if after.history().len() == before.history().len() {
                assert(ids_of(after.waiting()) =~= ids.push(id));
                lemma_subsequence_push(ids, ids, id);
            } else {
                lemma_subsequence_of_more(ids, ids, id);
            }
        },
        Call::Recheck { binance, coindcx, .. } => {
            assert(ids + new_ids(call) =~= ids);
            lemma_run_keeps_ids(w, before.cash(), before.holds(), binance, coindcx);
        },
        Call::Cancel { order, id, now } => {
            assert(ids + new_ids(call) =~= ids);
            if let Some(order) = order {
                let i = choose|i: int| takes_back(w, after.waiting(), order, id, now, i);
                assert(ids_of(after.waiting()) =~= ids.remove(i));
                lemma_subsequence_remove(ids, i);
            }
        },
    }
}

/// Over any series of calls the waiting orders stand in the order in which they were placed.
pub proof fn law_run_keeps_the_queue(cash: Decimal, states: Seq<TradingState>, calls: Seq<Call>)
    requires
        is_run(cash, states, calls),
    ensures
        is_subsequence(ids_of(states.last().waiting()), placed_ids(calls)),
    decreases calls.len(),
{
    if calls.len() > 0 {
        let (s, c) = (states.drop_last(), calls.drop_last());
        lemma_run_before(cash, states, calls);
        law_run_keeps_the_queue(cash, s, c);
        law_call_keeps_the_queue(s.last(), states.last(), calls.last());
        let (ids, placed, fresh) = (
            ids_of(s.last().waiting()),
            placed_ids(c),
            new_ids(calls.last()),
        );
        if fresh.len() > 0 {
            assert(fresh =~= seq![fresh[0]]);
            assert(ids + fresh =~= ids.push(fresh[0]));
            assert(placed + fresh =~= placed.push(fresh[0]));
            lemma_subsequence_push(ids, placed, fresh[0]);
        } else {
            assert(ids + fresh =~= ids);
            assert(placed + fresh =~= placed);
        }
        lemma_subsequence_through(ids_of(states.last().waiting()), ids + fresh, placed + fresh);
    }
}

} // verus!
