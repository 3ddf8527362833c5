//! What is known of a venue's feed, and how long to wait before the next attempt to reach it.

use crate::book::OrderBook;
use crate::execution::Venue;
use crate::matching::{Fill, MatchResult, Order};
use vstd::arithmetic::power2::{lemma_pow2_pos, pow2};
use vstd::prelude::*;

verus! {

/// How a feed is doing.
#[derive(Clone, Copy, Debug, PartialEq, Eq, Structural)]
pub enum FeedStatus {
    Connecting,
    Syncing,
    Live,
    Stale,
    Reconnecting,
}

/// Counts of what has happened on a feed.
#[derive(Debug)]
pub struct FeedStats {
    pub messages: u64,
    pub reconnects: u64,
    pub resyncs: u64,
    pub gaps: u64,
    pub last_error: Option<String>,
}

/// A feed: its book, how it is doing, and a version that changes whenever something is worth
/// showing.
#[derive(Debug)]
pub struct FeedState {
    pub exchange: &'static str,
    pub symbol: String,
    pub status: FeedStatus,
    pub book: OrderBook,
    pub stats: FeedStats,
    pub last_update_ms: Option<u64>,
    pub last_local_ms: Option<u64>,
    pub last_seq: Option<u64>,
    pub version: u64,
}

impl Default for FeedStats {
    /// Nothing has happened yet.
    fn default() -> (r: FeedStats)
        ensures
            r == (FeedStats { messages: 0, reconnects: 0, resyncs: 0, gaps: 0, last_error: None }),
    {
        FeedStats { messages: 0, reconnects: 0, resyncs: 0, gaps: 0, last_error: None }
    }
}

impl Clone for FeedStats {
    /// The same counts.
    fn clone(&self) -> (r: FeedStats)
        ensures
            r == *self,
    {
        FeedStats {
            messages: self.messages,
            reconnects: self.reconnects,
            resyncs: self.resyncs,
            gaps: self.gaps,
            last_error: match &self.last_error {
                Some(e) => Some(e.clone()),
                None => None,
            },
        }
    }
}

/// The version after one: after the last it starts again at zero.
pub open spec fn next_version(v: u64) -> u64 {
    if v == u64::MAX {
        0
    } else {
        (v + 1) as u64
    }
}

/// A feed with the next version.
pub open spec fn touched(st: FeedState) -> FeedState {
    FeedState { version: next_version(st.version), ..st }
}

/// A feed that has been given a status: a status that it had already is not worth showing.
pub open spec fn with_status(st: FeedState, s: FeedStatus) -> FeedState {
    if st.status == s {
        st
    } else {
        touched(FeedState { status: s, ..st })
    }
}

impl FeedState {
    /// A feed that nothing is known of.
    pub fn new(exchange: &'static str, symbol: String) -> (r: FeedState)
        ensures
            r.exchange == exchange,
            r.symbol == symbol,
            r.status == FeedStatus::Connecting,
            r.book.wf(),
            r.book.bids().len() == 0,
            r.book.asks().len() == 0,
            r.stats == (FeedStats {
                messages: 0,
                reconnects: 0,
                resyncs: 0,
                gaps: 0,
                last_error: None,
            }),
            r.last_update_ms is None,
            r.last_local_ms is None,
            r.last_seq is None,
            r.version == 0,
    {
        FeedState {
            exchange,
            symbol,
            status: FeedStatus::Connecting,
            book: OrderBook::default(),
            stats: FeedStats::default(),
            last_update_ms: None,
            last_local_ms: None,
            last_seq: None,
            version: 0,
        }
    }

    /// Gives the feed its next version.
    pub fn touch(&mut self)
        ensures
            *final(self) == touched(*old(self)),
    {
        self.version = self.version.wrapping_add(1);
    }

    /// Gives the feed a status, and its next version where that is news.
    pub fn set_status(&mut self, s: FeedStatus)
        ensures
            *final(self) == with_status(*old(self), s),
    {
        if self.status != s {
            self.status = s;
            self.touch();
        }
    }
}

/// News of the account.
#[derive(Debug)]
pub enum TradingEvent {
    OrderUpdate { order: Order },
    Fill { fill: Fill },
}

impl Clone for TradingEvent {
    /// The same news.
    fn clone(&self) -> (r: TradingEvent)
        ensures
            r == *self,
    {
        match self {
            TradingEvent::OrderUpdate { order } => TradingEvent::OrderUpdate {
                order: order.clone(),
            },
            TradingEvent::Fill { fill } => TradingEvent::Fill { fill: fill.clone() },
        }
    }
}

/// The news of an order that was worked on: its fills, then the order itself.
pub fn trading_events(result: &MatchResult) -> (r: Vec<TradingEvent>)
    ensures
        r.len() == result.new_fills.len() + 1,
        forall|i: int|
            0 <= i < result.new_fills.len() ==> #[trigger] r[i] == (TradingEvent::Fill {
                fill: result.new_fills[i],
            }),
        r[r.len() - 1] == (TradingEvent::OrderUpdate { order: result.order }),
{
    let mut r: Vec<TradingEvent> = Vec::new();
    for i in 0..result.new_fills.len()
        invariant
            r.len() == i,
            forall|j: int|
                0 <= j < i ==> #[trigger] r[j] == (TradingEvent::Fill {
                    fill: result.new_fills[j],
                }),
    {
        r.push(TradingEvent::Fill { fill: result.new_fills[i].clone() });
    }
    r.push(TradingEvent::OrderUpdate { order: result.order.clone() });
    r
}

/// The venue that a name stands for: any name but the first venue's stands for the second.
pub fn venue_named(name: &String) -> (r: Venue)
    ensures
        r == if name@ == "binance"@ {
            Venue::Binance
        } else {
            Venue::Coindcx
        },
{
    if *name == String::from_str("binance") {
        Venue::Binance
    } else {
        Venue::Coindcx
    }
}

/// How long to wait before the next attempt: twice as long each time, up to a limit.
#[derive(Debug)]
pub struct Backoff {
    cur_ms: u64,
    base_ms: u64,
    max_ms: u64,
}

/// The wait after a wait.
pub open spec fn next_wait(cur: int, max: int) -> int {
    if cur * 2 < max {
        cur * 2
    } else {
        max
    }
}

/// The wait after `k` others.
pub open spec fn wait_after(base: int, max: int, k: nat) -> int
    decreases k,
{
    if k == 0 {
        base
    } else {
        next_wait(wait_after(base, max, (k - 1) as nat), max)
    }
}

impl Backoff {
    /// The next wait, in milliseconds.
    pub closed spec fn cur(self) -> int {
        self.cur_ms as int
    }

    /// The first wait.
    pub closed spec fn base(self) -> int {
        self.base_ms as int
    }

    /// The limit of the waits.
    pub closed spec fn max(self) -> int {
        self.max_ms as int
    }

    /// Waits that start at `base_ms` and grow up to `max_ms`.
    pub fn new(base_ms: u64, max_ms: u64) -> (r: Backoff)
        ensures
            r.cur() == base_ms,
            r.base() == base_ms,
            r.max() == max_ms,
    {
        Backoff { cur_ms: base_ms, base_ms, max_ms }
    }

    /// The next wait in milliseconds.
    pub fn next(&mut self) -> (r: u64)
        requires
            old(self).cur() * 2 <= u64::MAX,
        ensures
            r == old(self).cur(),
            final(self).cur() == next_wait(old(self).cur(), old(self).max()),
            final(self).base() == old(self).base(),
            final(self).max() == old(self).max(),
    {
        let d: u64 = self.cur_ms;
        let twice: u64 = self.cur_ms * 2;
        self.cur_ms = if twice < self.max_ms {
            twice
        } else {
            self.max_ms
        };
        d
    }

    /// Starts again at the first wait.
    pub fn reset(&mut self)
        ensures
            final(self).cur() == old(self).base(),
            final(self).base() == old(self).base(),
            final(self).max() == old(self).max(),
    {
        self.cur_ms = self.base_ms;
    }
}

/// After `k` waits the next is the first one doubled `k` times, or the limit where that is less.
pub proof fn law_waits_double(base: int, max: int, k: nat)
    requires
        0 <= base,
        0 <= max,
        k > 0,
    ensures
        wait_after(base, max, k) == if base * pow2(k) < max {
            base * pow2(k)
        } else {
            max
        },
    decreases k,
{
    let j = (k - 1) as nat;
    vstd::arithmetic::power2::lemma_pow2_unfold(k);
    lemma_pow2_pos(j);
    let (p, q) = (pow2(j) as int, pow2(k) as int);
    assert(base * q == 2 * (base * p)) by (nonlinear_arith)
        requires
            q == 2 * p,
    ;
    assert(base * p >= 0) by (nonlinear_arith)
        requires
            base >= 0,
            p > 0,
    ;
    if j > 0 {
        law_waits_double(base, max, j);
    } else {
        vstd::arithmetic::power2::lemma2_to64();
        assert(base * p == base) by (nonlinear_arith)
            requires
                p == 1,
        ;
        assert(wait_after(base, max, j) == base);
    }
}

/// Where the first wait is within the limit, every wait is, and no wait is shorter than the one
/// before it.
pub proof fn law_waits_are_bounded(base: int, max: int, k: nat)
    requires
        0 <= base <= max,
    ensures
        0 <= wait_after(base, max, k) <= max,
        wait_after(base, max, k) <= wait_after(base, max, k + 1),
    decreases k,
{
    if k > 0 {
        law_waits_are_bounded(base, max, (k - 1) as nat);
    }
}

} // verus!
