//! What happens to a feed, field by field.

use crate::binance::{
    is_installed, is_updated, leaves_gap, may_start_over, DepthUpdate, Outcome, Phase, Snapshot,
    SyncError,
};
use crate::binance_session::{
    has_room, is_followed, is_supplied, BinanceSession, DepthReport, SnapshotReport,
};
use crate::book::OrderBook;
use crate::session::{
    attempt_ended, attempt_started, freshened, freshness, since, wait_now, Freshness,
};
use crate::state::{next_wait, touched, with_status, Backoff, FeedState, FeedStats, FeedStatus};
use vstd::prelude::*;

verus! {

/// Whether a version is the one after another: after the last of all it is zero again.
pub open spec fn follows(v: u64, w: u64) -> bool {
    w as int == (v + 1) % 0x1_0000_0000_0000_0000
}

/// Whether two feeds are the same but for the version and the status.
pub open spec fn same_but_status(x: FeedState, y: FeedState) -> bool {
    &&& x.exchange == y.exchange
    &&& x.symbol == y.symbol
    &&& x.book == y.book
    &&& x.stats == y.stats
    &&& x.last_update_ms == y.last_update_ms
    &&& x.last_local_ms == y.last_local_ms
    &&& x.last_seq == y.last_seq
}

/// Touching a feed gives it the next version and changes nothing else.
pub proof fn law_touching_moves_the_version(st: FeedState)
    ensures
        follows(st.version, touched(st).version),
        touched(st).version != st.version,
        touched(st).status == st.status,
        same_but_status(touched(st), st),
{
}

/// A feed that is given a status has it. Where that is news the feed gets the next version, and where
/// it is not nothing changes at all.
pub proof fn law_status_is_set(st: FeedState, s: FeedStatus)
    ensures
        with_status(st, s).status == s,
        st.status == s ==> with_status(st, s) == st,
        st.status != s ==> follows(st.version, with_status(st, s).version),
        same_but_status(with_status(st, s), st),
{
}

/// An attempt to reach a venue starts as connecting the first time and as reconnecting after that. It
/// is news, and changes nothing but the book.
pub proof fn law_attempt_starts(st: FeedState, first: bool, book: OrderBook)
    ensures
        ({
            let after = attempt_started(st, first, book);
            &&& after.status == if first {
                FeedStatus::Connecting
            } else {
                FeedStatus::Reconnecting
            }
            &&& after.book == book
            &&& after.version as int == (st.version + if st.status == after.status {
                1int
            } else {
                2
            }) % 0x1_0000_0000_0000_0000
            &&& same_but_status(FeedState { book: st.book, ..after }, st)
        }),
{
}

/// An attempt that has ended is counted, keeps its error where it has one and the error before it
/// where it has none, and leaves the feed reconnecting.
pub proof fn law_attempt_ends(st: FeedState, error: Option<String>)
    requires
        st.stats.reconnects < u64::MAX,
    ensures
        ({
            let after = attempt_ended(st, error);
            &&& after.status == FeedStatus::Reconnecting
            &&& st.status == FeedStatus::Reconnecting ==> after.version == st.version
            &&& st.status != FeedStatus::Reconnecting ==> follows(st.version, after.version)
            &&& after.stats.reconnects == st.stats.reconnects + 1
            &&& error is Some ==> after.stats.last_error == error
            &&& error is None ==> after.stats.last_error == st.stats.last_error
            &&& after.stats.messages == st.stats.messages
            &&& after.stats.resyncs == st.stats.resyncs
            &&& after.stats.gaps == st.stats.gaps
            &&& same_but_status(FeedState { stats: st.stats, ..after }, st)
        }),
{
}

/// The wait after a session is the first wait again where the session lasted for more than a minute,
/// and the next one otherwise. The wait after it is twice as long, up to the limit. A clock that went
/// back counts as no time.
pub proof fn law_long_session_starts_the_waits_again(waits: Backoff, started: u64, now: u64)
    ensures
        now - started > 60000 ==> wait_now(waits, started, now) == waits.base(),
        now - started <= 60000 ==> wait_now(waits, started, now) == waits.cur(),
        since(now, started) == if started <= now {
            now - started
        } else {
            0
        },
{
}

/// A wait that is followed by another is followed by twice itself, or by the limit where that is less.
pub proof fn law_next_wait(cur: int, max: int)
    ensures
        next_wait(cur, max) <= max,
        next_wait(cur, max) <= 2 * cur,
        next_wait(cur, max) == max || next_wait(cur, max) == 2 * cur,
{
}

/// A live feed goes stale when no depth update has come for more than five seconds, and a stale one is
/// live again when one has come in time. No other feed changes, and nothing else about a feed does.
pub proof fn law_freshness_of_a_feed(st: FeedState, since_depth: int)
    ensures
        freshness(st.status, since_depth) == Freshness::WentStale <==> st.status
            == FeedStatus::Live && since_depth > 5000,
        freshness(st.status, since_depth) == Freshness::Resumed <==> st.status == FeedStatus::Stale
            && since_depth <= 5000,
        st.status == FeedStatus::Live && since_depth > 5000 ==> freshened(st, since_depth).status
            == FeedStatus::Stale && follows(st.version, freshened(st, since_depth).version),
        st.status == FeedStatus::Stale && since_depth <= 5000 ==> freshened(st, since_depth).status
            == FeedStatus::Live && follows(st.version, freshened(st, since_depth).version),
        !(st.status == FeedStatus::Live && since_depth > 5000) && !(st.status == FeedStatus::Stale
            && since_depth <= 5000) ==> freshened(st, since_depth) == st,
        same_but_status(freshened(st, since_depth), st),
{
}

/// A connection is given up after thirty seconds without frames; on the other venue after twenty
/// seconds without depth updates, or where a ping stays out for five seconds longer than promised.
pub proof fn law_patience()
    ensures
        crate::binance_session::DEAD_AFTER_MS == 30000,
        crate::coindcx::DEAD_AFTER_MS == 20000,
        crate::coindcx::PING_GRACE_MS == 5000,
{
}

/// There is room to count an update where messages can be counted, and resyncs and gaps where it may
/// bring them.
pub proof fn law_room_to_count(phase: Phase, stats: FeedStats, ev: DepthUpdate)
    ensures
        has_room(phase, stats, ev) <==> stats.messages < u64::MAX && (stats.resyncs < u64::MAX
            || !may_start_over(phase, ev)) && (stats.gaps < u64::MAX || !leaves_gap(phase, ev)),
{
}

/// Whether a session asks for a snapshot, with nothing kept for it.
pub open spec fn asks_again(s: BinanceSession) -> bool {
    s.need_snapshot && (s.syncer.phase matches Phase::Buffering(buf) && buf@.len() == 0)
}

/// Whether waits are as they were.
pub open spec fn same_waits(x: Backoff, y: Backoff) -> bool {
    x.cur() == y.cur() && x.base() == y.base() && x.max() == y.max()
}

/// Whether waits start again.
pub open spec fn waits_again(before: Backoff, after: Backoff) -> bool {
    after.cur() == before.base() && after.base() == before.base() && after.max() == before.max()
}

/// Whether an update was taken by the syncer with the given outcome, and what the session makes of it.
///
/// An update that is kept or ignored leaves everything but the book's syncer as it is. One that is
/// applied makes the feed live, and starts the waits again where it was not. One that leaves the book
/// crossed, or is refused, makes the session start over.
pub open spec fn is_report(
    s: BinanceSession,
    after: BinanceSession,
    st: FeedState,
    st_after: FeedState,
    waits: Backoff,
    waits_after: Backoff,
    ev: DepthUpdate,
    phase: Phase,
    outcome: Result<Outcome, SyncError>,
    r: DepthReport,
) -> bool {
    let crossed = st_after.book.crossed();
    let applied = outcome == Ok::<Outcome, SyncError>(Outcome::Applied);
    &&& is_updated(s.syncer.phase, phase, st.book, st_after.book, ev, outcome)
    &&& outcome == Ok::<Outcome, SyncError>(Outcome::Buffered) <==> r is Kept
    &&& outcome == Ok::<Outcome, SyncError>(Outcome::Ignored) <==> r is Ignored
    &&& applied && crossed <==> r is Crossed
    &&& applied && !crossed && st.status == FeedStatus::Live <==> r is Applied
    &&& applied && !crossed && st.status == FeedStatus::Stale <==> r is Resumed
    &&& applied && !crossed && st.status != FeedStatus::Live && st.status != FeedStatus::Stale
        <==> r is WentLive
    &&& r matches DepthReport::WentLive { bids, asks } ==> bids == st_after.book.bids().len()
        && asks == st_after.book.asks().len()
    &&& outcome matches Err(e) ==> r == DepthReport::Refused(e)
    &&& r is Crossed || r is Refused ==> asks_again(after)
    &&& !(r is Crossed) && !(r is Refused) ==> after.syncer.phase == phase && after.need_snapshot
        == s.need_snapshot
    &&& r is Resumed || r is WentLive ==> waits_again(waits, waits_after)
    &&& !(r is Resumed) && !(r is WentLive) ==> same_waits(waits, waits_after)
}

/// What a session reports of an update is what became of it.
pub proof fn law_update_is_reported(
    s: BinanceSession,
    after: BinanceSession,
    st: FeedState,
    st_after: FeedState,
    waits: Backoff,
    waits_after: Backoff,
    ev: DepthUpdate,
    local: u64,
    r: DepthReport,
)
    requires
        is_followed(s, after, st, st_after, waits, waits_after, ev, local, r),
    ensures
        exists|phase: Phase, outcome: Result<Outcome, SyncError>|
            is_report(
                s,
                after,
                st,
                st_after,
                waits,
                waits_after,
                ev,
                phase,
                outcome,
                r,
            ),
{
    let (phase, outcome): (Phase, Result<Outcome, SyncError>) = match r {
        DepthReport::Kept => (after.syncer.phase, Ok(Outcome::Buffered)),
        DepthReport::Ignored => (after.syncer.phase, Ok(Outcome::Ignored)),
        DepthReport::Crossed => (Phase::Live { last_u: ev.last_id }, Ok(Outcome::Applied)),
        DepthReport::Refused(e) => (s.syncer.phase, Err(e)),
        _ => (after.syncer.phase, Ok(Outcome::Applied)),
    };
    assert(is_report(s, after, st, st_after, waits, waits_after, ev, phase, outcome, r));
}

/// What an update changes about a feed besides its book. An update that is applied dates it and tells
/// its number, and makes it live and gives it the next version unless it leaves the book crossed. One
/// that makes the session start over makes it sync again. Any other changes nothing.
pub proof fn law_update_shows_in_the_feed(
    s: BinanceSession,
    after: BinanceSession,
    st: FeedState,
    st_after: FeedState,
    waits: Backoff,
    waits_after: Backoff,
    ev: DepthUpdate,
    local: u64,
    r: DepthReport,
)
    requires
        is_followed(s, after, st, st_after, waits, waits_after, ev, local, r),
    ensures
        st_after.exchange == st.exchange,
        st_after.symbol == st.symbol,
        r is Kept || r is Ignored ==> st_after.status == st.status && st_after.version
            == st.version,
        r is Applied || r is Resumed || r is WentLive ==> st_after.status == FeedStatus::Live
            && follows(st.version, st_after.version),
        r is Crossed || r is Refused ==> st_after.status == FeedStatus::Syncing && (st.status
            == FeedStatus::Syncing ==> st_after.version == st.version) && (st.status
            != FeedStatus::Syncing ==> follows(st.version, st_after.version)),
        r is Applied || r is Resumed || r is WentLive || r is Crossed ==> st_after.last_seq == Some(
            ev.last_id,
        ) && st_after.last_update_ms == Some(ev.event_time) && st_after.last_local_ms == Some(local),
        r is Kept || r is Ignored || r is Refused ==> st_after.last_seq == st.last_seq
            && st_after.last_update_ms == st.last_update_ms && st_after.last_local_ms
            == st.last_local_ms,
{
}

/// Whether a snapshot was taken by the syncer with the given result, and what the session makes of it.
///
/// A snapshot that is in is dated, tells its number and is news. It makes the feed live, and starts
/// the waits again, where an update that was kept for it has been applied. One that is refused makes
/// the session start over.
pub open spec fn is_snapshot_report(
    s: BinanceSession,
    after: BinanceSession,
    st: FeedState,
    st_after: FeedState,
    waits: Backoff,
    waits_after: Backoff,
    snap: Snapshot,
    local: u64,
    phase: Phase,
    result: Result<usize, SyncError>,
    r: SnapshotReport,
) -> bool {
    &&& is_installed(s.syncer.phase, phase, st.book, st_after.book, snap, result)
    &&& result is Ok <==> r is Installed
    &&& st_after.exchange == st.exchange
    &&& st_after.symbol == st.symbol
    &&& st_after.last_update_ms == st.last_update_ms
    &&& st_after.stats.messages == st.stats.messages
    &&& st_after.stats.reconnects == st.stats.reconnects
    &&& st_after.stats.last_error == st.stats.last_error
    &&& match r {
        SnapshotReport::Installed { bids, asks, buffered, applied, live } => {
            &&& result == Ok::<usize, SyncError>(applied)
            &&& after.syncer.phase == phase
            &&& after.need_snapshot == s.need_snapshot
            &&& bids == st_after.book.bids().len()
            &&& asks == st_after.book.asks().len()
            &&& buffered == match s.syncer.phase {
                Phase::Buffering(buf) => buf@.len(),
                _ => 0,
            }
            &&& live <==> phase is Live
            &&& st_after.last_seq == Some(snap.last_update_id)
            &&& st_after.last_local_ms == Some(local)
            &&& st_after.status == if live {
                FeedStatus::Live
            } else {
                st.status
            }
            &&& st_after.version as int == (st.version + if live && st.status != FeedStatus::Live {
                2int
            } else {
                1
            }) % 0x1_0000_0000_0000_0000
            &&& st_after.stats.resyncs == st.stats.resyncs
            &&& st_after.stats.gaps == st.stats.gaps
            &&& live ==> waits_again(waits, waits_after)
            &&& !live ==> same_waits(waits, waits_after)
        },
        SnapshotReport::Refused(e) => {
            &&& result == Err::<usize, SyncError>(e)
            &&& asks_again(after)
            &&& st_after.status == FeedStatus::Syncing
            &&& st.status == FeedStatus::Syncing ==> st_after.version == st.version
            &&& st.status != FeedStatus::Syncing ==> follows(st.version, st_after.version)
            &&& st_after.last_seq == st.last_seq
            &&& st_after.last_local_ms == st.last_local_ms
            &&& st_after.stats.resyncs == st.stats.resyncs + 1
            &&& st_after.stats.gaps == st.stats.gaps + if e is Gap {
                1int
            } else {
                0
            }
            &&& same_waits(waits, waits_after)
        },
    }
}

/// What a session reports of a snapshot is what became of it.
pub proof fn law_snapshot_is_reported(
    s: BinanceSession,
    after: BinanceSession,
    st: FeedState,
    st_after: FeedState,
    waits: Backoff,
    waits_after: Backoff,
    snap: Snapshot,
    local: u64,
    r: SnapshotReport,
)
    requires
        is_supplied(s, after, st, st_after, waits, waits_after, snap, local, r),
        st.stats.resyncs < u64::MAX,
        st.stats.gaps < u64::MAX,
    ensures
        exists|phase: Phase, result: Result<usize, SyncError>|
            is_snapshot_report(
                s,
                after,
                st,
                st_after,
                waits,
                waits_after,
                snap,
                local,
                phase,
                result,
                r,
            ),
{
    let (phase, result): (Phase, Result<usize, SyncError>) = match r {
        SnapshotReport::Installed { applied, .. } => (after.syncer.phase, Ok(applied)),
        SnapshotReport::Refused(e) => (
            choose|phase: Phase| #[trigger]
                is_installed(s.syncer.phase, phase, st.book, st_after.book, snap, Err(e)),
            Err(e),
        ),
    };
    assert(is_snapshot_report(
        s,
        after,
        st,
        st_after,
        waits,
        waits_after,
        snap,
        local,
        phase,
        result,
        r,
    ));
}

} // verus!
