//! What the sessions with both venues have in common.

use crate::book::{Level, OrderBook};
use crate::state::{
    next_wait, touched, with_status, Backoff, FeedState, FeedStats, FeedStatus,
};
use vstd::prelude::*;

verus! {

/// After how many milliseconds without depth updates a live feed is stale.
pub const STALE_AFTER_MS: u64 = 5000;

/// A session that has lasted for more milliseconds than this starts the waits again.
pub const LONG_SESSION_MS: u64 = 60000;

/// The time from `then` to `now`; nothing where the clock went back.
pub open spec fn since(now: u64, then: u64) -> int {
    if now < then {
        0
    } else {
        now - then
    }
}

/// A feed at the start of an attempt, with the book that it then has.
pub open spec fn attempt_started(st: FeedState, first: bool, book: OrderBook) -> FeedState {
    let s = if first {
        FeedStatus::Connecting
    } else {
        FeedStatus::Reconnecting
    };
    touched(FeedState { book, ..with_status(st, s) })
}

/// Starts an attempt to reach a venue, keeping the book.
pub fn start_attempt(st: &mut FeedState, first: bool)
    ensures
        *final(st) == attempt_started(*old(st), first, old(st).book),
{
    st.set_status(
        if first {
            FeedStatus::Connecting
        } else {
            FeedStatus::Reconnecting
        },
    );
    st.touch();
}

/// Starts an attempt to reach a venue, with an empty book.
pub fn start_attempt_afresh(st: &mut FeedState, first: bool)
    ensures
        *final(st) == attempt_started(*old(st), first, final(st).book),
        final(st).book.bids() == Seq::<Level>::empty(),
        final(st).book.asks() == Seq::<Level>::empty(),
{
    st.set_status(
        if first {
            FeedStatus::Connecting
        } else {
            FeedStatus::Reconnecting
        },
    );
    st.book.clear();
    st.touch();
}

/// A feed after an attempt: the error is kept where there was one, the attempt is counted.
pub open spec fn attempt_ended(st: FeedState, error: Option<String>) -> FeedState {
    let stats = FeedStats {
        reconnects: (st.stats.reconnects + 1) as u64,
        last_error: if error is Some {
            error
        } else {
            st.stats.last_error
        },
        ..st.stats
    };
    with_status(FeedState { stats, ..st }, FeedStatus::Reconnecting)
}

/// Ends an attempt to reach a venue.
pub fn end_attempt(st: &mut FeedState, error: Option<String>)
    requires
        old(st).stats.reconnects < u64::MAX,
    ensures
        *final(st) == attempt_ended(*old(st), error),
{
    match error {
        Some(e) => {
            st.stats.last_error = Some(e);
        },
        None => {},
    }
    st.stats.reconnects = st.stats.reconnects + 1;
    st.set_status(FeedStatus::Reconnecting);
}

/// Keeps an error that does not end the session.
pub fn note_error(st: &mut FeedState, error: String)
    ensures
        *final(st) == (FeedState {
            stats: FeedStats { last_error: Some(error), ..old(st).stats },
            ..*old(st)
        }),
{
    st.stats.last_error = Some(error);
}

/// The wait after a session: the waits start again after a long one.
pub open spec fn wait_now(backoff: Backoff, started: u64, now: u64) -> int {
    if since(now, started) > LONG_SESSION_MS {
        backoff.base()
    } else {
        backoff.cur()
    }
}

/// How many milliseconds to wait after a session that lasted from `started` to `now`.
pub fn wait_after_session(backoff: &mut Backoff, started: u64, now: u64) -> (r: u64)
    requires
        wait_now(*old(backoff), started, now) * 2 <= u64::MAX,
    ensures
        r == wait_now(*old(backoff), started, now),
        final(backoff).cur() == next_wait(r as int, old(backoff).max()),
        final(backoff).base() == old(backoff).base(),
        final(backoff).max() == old(backoff).max(),
{
    if now.saturating_sub(started) > LONG_SESSION_MS {
        backoff.reset();
    }
    backoff.next()
}

/// What became of a feed's freshness.
#[derive(Clone, Copy, Debug, PartialEq, Eq, Structural)]
pub enum Freshness {
    Unchanged,
    WentStale,
    Resumed,
}

/// What becomes of the freshness of a feed: one that is live goes stale when depth updates stay out,
/// and one that is stale comes back when they have come.
pub open spec fn freshness(status: FeedStatus, since_depth: int) -> Freshness {
    if status == FeedStatus::Live && since_depth > STALE_AFTER_MS {
        Freshness::WentStale
    } else if status == FeedStatus::Stale && since_depth <= STALE_AFTER_MS {
        Freshness::Resumed
    } else {
        Freshness::Unchanged
    }
}

/// A feed after a look at its freshness.
pub open spec fn freshened(st: FeedState, since_depth: int) -> FeedState {
    match freshness(st.status, since_depth) {
        Freshness::WentStale => with_status(st, FeedStatus::Stale),
        Freshness::Resumed => with_status(st, FeedStatus::Live),
        Freshness::Unchanged => st,
    }
}

/// Looks at a feed's freshness, `since_depth` milliseconds after the last depth update.
pub fn check_freshness(st: &mut FeedState, since_depth: u64) -> (r: Freshness)
    ensures
        r == freshness(old(st).status, since_depth as int),
        *final(st) == freshened(*old(st), since_depth as int),
{
    if st.status == FeedStatus::Live && since_depth > STALE_AFTER_MS {
        st.set_status(FeedStatus::Stale);
        Freshness::WentStale
    } else if st.status == FeedStatus::Stale && since_depth <= STALE_AFTER_MS {
        st.set_status(FeedStatus::Live);
        Freshness::Resumed
    } else {
        Freshness::Unchanged
    }
}

/// A second look at the same moment changes nothing.
pub proof fn law_freshness_settles(st: FeedState, since_depth: int)
    ensures
        freshened(freshened(st, since_depth), since_depth) == freshened(st, since_depth),
        freshness(freshened(st, since_depth).status, since_depth) == Freshness::Unchanged,
{
}

} // verus!
