//! A session with a venue that sends numbered updates.

use crate::binance::{
    is_buffering, is_installed, is_updated, kept, leaves_gap, may_start_over, DepthUpdate, Outcome,
    Phase, Snapshot, SyncError, Syncer,
};
use crate::book::OrderBook;
use crate::session::{check_freshness, freshened, freshness, since, Freshness};
use crate::state::{
    next_version, touched, with_status, Backoff, FeedState, FeedStats, FeedStatus,
};
use vstd::prelude::*;

verus! {

/// After how many milliseconds without frames a connection is dead.
pub const DEAD_AFTER_MS: u64 = 30000;

/// What a session remembers.
#[derive(Debug)]
pub struct BinanceSession {
    pub syncer: Syncer,
    /// A snapshot is to be asked for.
    pub need_snapshot: bool,
    /// When the last frame came.
    pub last_frame: u64,
    /// When the last depth update came.
    pub last_depth: u64,
}

/// What became of a depth update.
#[derive(Debug)]
pub enum DepthReport {
    /// It is kept for a snapshot.
    Kept,
    /// It brought nothing new.
    Ignored,
    /// It was applied, to a feed that was live.
    Applied,
    /// It was applied, and the feed is no longer stale.
    Resumed,
    /// It was applied, and the feed is live. The levels of each side.
    WentLive { bids: usize, asks: usize },
    /// It was applied, and the book is crossed: a new snapshot is needed.
    Crossed,
    /// It was refused: a new snapshot is needed.
    Refused(SyncError),
}

/// What became of a snapshot.
#[derive(Debug)]
pub enum SnapshotReport {
    /// It is in. The levels of each side, how many updates were kept for it and how many of these
    /// were applied, and whether the feed is live.
    Installed { bids: usize, asks: usize, buffered: usize, applied: usize, live: bool },
    /// It was refused, or an update that was kept for it: a new snapshot is needed.
    Refused(SyncError),
}

/// Why a session ends.
#[derive(Clone, Copy, Debug, PartialEq, Eq, Structural)]
pub enum Silence {
    /// No frames have come.
    NoFrames,
}

impl Silence {
    /// The reason as text.
    pub open spec fn text(self) -> Seq<char> {
        "no frames for 30s"@
    }

    /// The reason as text.
    pub fn message(&self) -> (r: String)
        ensures
            r@ == self.text(),
    {
        String::from_str("no frames for 30s")
    }
}

/// A feed that has counted a message, with the book that it then has.
pub open spec fn counted(st: FeedState, book: OrderBook) -> FeedState {
    let stats = FeedStats { messages: (st.stats.messages + 1) as u64, ..st.stats };
    FeedState { book, stats, ..st }
}

/// A feed that tells when its last update was made and when it was applied.
pub open spec fn dated(st: FeedState, ev: DepthUpdate, local: u64) -> FeedState {
    FeedState {
        last_seq: Some(ev.last_id),
        last_update_ms: Some(ev.event_time),
        last_local_ms: Some(local),
        ..st
    }
}

/// A feed that has counted missing updates, where that is what went wrong.
pub open spec fn blamed(st: FeedState, e: SyncError) -> FeedState {
    if e is Gap {
        FeedState { stats: FeedStats { gaps: (st.stats.gaps + 1) as u64, ..st.stats }, ..st }
    } else {
        st
    }
}

/// A feed that syncs again.
pub open spec fn resyncing(st: FeedState) -> FeedState {
    let stats = FeedStats { resyncs: (st.stats.resyncs + 1) as u64, ..st.stats };
    with_status(FeedState { stats, ..st }, FeedStatus::Syncing)
}

/// Whether waits start again.
pub open spec fn is_reset(before: Backoff, after: Backoff) -> bool {
    &&& after.cur() == before.base()
    &&& after.base() == before.base()
    &&& after.max() == before.max()
}

/// Whether a session asks for a snapshot and keeps nothing.
pub open spec fn starts_over(s: BinanceSession) -> bool {
    s.need_snapshot && is_buffering(s.syncer.phase, Seq::empty())
}

/// Whether what an update can bring can be counted.
pub open spec fn has_room(phase: Phase, stats: FeedStats, ev: DepthUpdate) -> bool {
    &&& stats.messages < u64::MAX
    &&& may_start_over(phase, ev) ==> stats.resyncs < u64::MAX
    &&& leaves_gap(phase, ev) ==> stats.gaps < u64::MAX
}

/// What a depth update does to a session, its feed and the waits.
pub open spec fn is_followed(
    s: BinanceSession,
    after: BinanceSession,
    st: FeedState,
    st_after: FeedState,
    waits: Backoff,
    waits_after: Backoff,
    ev: DepthUpdate,
    local: u64,
    r: DepthReport,
) -> bool {
    let seen = counted(st, st_after.book);
    let shown = dated(seen, ev, local);
    match r {
        DepthReport::Kept => {
            &&& is_updated(
                s.syncer.phase,
                after.syncer.phase,
                st.book,
                st_after.book,
                ev,
                Ok(Outcome::Buffered),
            )
            &&& st_after == seen
            &&& after.need_snapshot == s.need_snapshot
            &&& waits_after == waits
        },
        DepthReport::Ignored => {
            &&& is_updated(
                s.syncer.phase,
                after.syncer.phase,
                st.book,
                st_after.book,
                ev,
                Ok(Outcome::Ignored),
            )
            &&& st_after == seen
            &&& after.need_snapshot == s.need_snapshot
            &&& waits_after == waits
        },
        DepthReport::Applied => {
            &&& is_updated(
                s.syncer.phase,
                after.syncer.phase,
                st.book,
                st_after.book,
                ev,
                Ok(Outcome::Applied),
            )
            &&& !st_after.book.crossed()
            &&& st.status == FeedStatus::Live
            &&& st_after == touched(shown)
            &&& after.need_snapshot == s.need_snapshot
            &&& waits_after == waits
        },
        DepthReport::Resumed => {
            &&& is_updated(
                s.syncer.phase,
                after.syncer.phase,
                st.book,
                st_after.book,
                ev,
                Ok(Outcome::Applied),
            )
            &&& !st_after.book.crossed()
            &&& st.status == FeedStatus::Stale
            &&& st_after == with_status(shown, FeedStatus::Live)
            &&& after.need_snapshot == s.need_snapshot
            &&& is_reset(waits, waits_after)
        },
        DepthReport::WentLive { bids, asks } => {
            &&& is_updated(
                s.syncer.phase,
                after.syncer.phase,
                st.book,
                st_after.book,
                ev,
                Ok(Outcome::Applied),
            )
            &&& !st_after.book.crossed()
            &&& st.status != FeedStatus::Live
            &&& st.status != FeedStatus::Stale
            &&& st_after == with_status(shown, FeedStatus::Live)
            &&& bids == st_after.book.bids().len()
            &&& asks == st_after.book.asks().len()
            &&& after.need_snapshot == s.need_snapshot
            &&& is_reset(waits, waits_after)
        },
        DepthReport::Crossed => {
            &&& is_updated(
                s.syncer.phase,
                Phase::Live { last_u: ev.last_id },
                st.book,
                st_after.book,
                ev,
                Ok(Outcome::Applied),
            )
            &&& st_after.book.crossed()
            &&& st_after == resyncing(shown)
            &&& starts_over(after)
            &&& waits_after == waits
        },
        DepthReport::Refused(e) => {
            &&& is_updated(s.syncer.phase, s.syncer.phase, st.book, st_after.book, ev, Err(e))
            &&& st_after == resyncing(blamed(seen, e))
            &&& starts_over(after)
            &&& waits_after == waits
        },
    }
}

/// A feed that a snapshot has been installed in.
pub open spec fn snapshot_shown(
    st: FeedState,
    book: OrderBook,
    id: u64,
    local: u64,
) -> FeedState {
    touched(FeedState { book, last_seq: Some(id), last_local_ms: Some(local), ..st })
}

/// What a snapshot does to a session, its feed and the waits.
pub open spec fn is_supplied(
    s: BinanceSession,
    after: BinanceSession,
    st: FeedState,
    st_after: FeedState,
    waits: Backoff,
    waits_after: Backoff,
    snap: Snapshot,
    local: u64,
    r: SnapshotReport,
) -> bool {
    match r {
        SnapshotReport::Installed { bids, asks, buffered, applied, live } => {
            let shown = snapshot_shown(st, st_after.book, snap.last_update_id, local);
            &&& is_installed(
                s.syncer.phase,
                after.syncer.phase,
                st.book,
                st_after.book,
                snap,
                Ok(applied),
            )
            &&& after.need_snapshot == s.need_snapshot
            &&& bids == st_after.book.bids().len()
            &&& asks == st_after.book.asks().len()
            &&& buffered == kept(s.syncer.phase).len()
            &&& live == (after.syncer.phase is Live)
            &&& st_after == if live {
                with_status(shown, FeedStatus::Live)
            } else {
                shown
            }
            &&& if live {
                is_reset(waits, waits_after)
            } else {
                waits_after == waits
            }
        },
        SnapshotReport::Refused(e) => {
            &&& exists|phase: Phase| #[trigger]
                is_installed(s.syncer.phase, phase, st.book, st_after.book, snap, Err(e))
            &&& st_after == resyncing(blamed(FeedState { book: st_after.book, ..st }, e))
            &&& starts_over(after)
            &&& waits_after == waits
        },
    }
}

impl BinanceSession {
    /// A session that has just begun, and whose first snapshot is under way.
    pub fn new(now: u64) -> (r: BinanceSession)
        ensures
            is_buffering(r.syncer.phase, Seq::empty()),
            !r.need_snapshot,
            r.last_frame == now,
            r.last_depth == now,
    {
        BinanceSession {
            syncer: Syncer::new(),
            need_snapshot: false,
            last_frame: now,
            last_depth: now,
        }
    }

    /// A frame has come.
    pub fn on_frame(&mut self, now: u64)
        ensures
            *final(self) == (BinanceSession { last_frame: now, ..*old(self) }),
    {
        self.last_frame = now;
    }

    /// Starts over: the book is to be synced again.
    fn resync(&mut self, st: &mut FeedState)
        requires
            old(st).stats.resyncs < u64::MAX,
        ensures
            starts_over(*final(self)),
            final(self).last_frame == old(self).last_frame,
            final(self).last_depth == old(self).last_depth,
            *final(st) == resyncing(*old(st)),
    {
        self.syncer.reset();
        self.need_snapshot = true;
        st.stats.resyncs = st.stats.resyncs + 1;
        st.set_status(FeedStatus::Syncing);
    }

    /// Whether what an update can bring can be counted.
    pub fn can_count(&self, ev: &DepthUpdate, stats: &FeedStats) -> (r: bool)
        ensures
            r == has_room(self.syncer.phase, *stats, *ev),
    {
        let (start_over, gap) = self.syncer.foresees(ev);
        stats.messages < u64::MAX && (!start_over || stats.resyncs < u64::MAX) && (!gap
            || stats.gaps < u64::MAX)
    }

    /// A depth update has come, at `now`. What it changes is dated `local`.
    pub fn on_depth(
        &mut self,
        ev: DepthUpdate,
        st: &mut FeedState,
        backoff: &mut Backoff,
        now: u64,
        local: u64,
    ) -> (r: DepthReport)
        requires
            has_room(old(self).syncer.phase, old(st).stats, ev),
        ensures
            final(self).last_frame == old(self).last_frame,
            final(self).last_depth == now,
            is_followed(
                *old(self),
                *final(self),
                *old(st),
                *final(st),
                *old(backoff),
                *final(backoff),
                ev,
                local,
                r,
            ),
    {
        self.last_depth = now;
        st.stats.messages = st.stats.messages + 1;
        let (seq, ts): (u64, u64) = (ev.last_id, ev.event_time);
        match self.syncer.on_update(ev, &mut st.book) {
            Ok(Outcome::Buffered) => DepthReport::Kept,
            Ok(Outcome::Ignored) => DepthReport::Ignored,
            Ok(Outcome::Applied) => {
                st.last_seq = Some(seq);
                st.last_update_ms = Some(ts);
                st.last_local_ms = Some(local);
                if st.book.is_crossed() {
                    self.resync(st);
                    DepthReport::Crossed
                } else if st.status != FeedStatus::Live {
                    let was_stale = st.status == FeedStatus::Stale;
                    st.set_status(FeedStatus::Live);
                    backoff.reset();
                    let (bids, asks): (usize, usize) = st.book.depth();
                    if was_stale {
                        DepthReport::Resumed
                    } else {
                        DepthReport::WentLive { bids, asks }
                    }
                } else {
                    st.touch();
                    DepthReport::Applied
                }
            },
            Err(e) => {
                if let SyncError::Gap(_) = &e {
                    st.stats.gaps = st.stats.gaps + 1;
                }
                self.resync(st);
                DepthReport::Refused(e)
            },
        }
    }

    /// A snapshot has come. What it changes is dated `local`.
    pub fn on_snapshot(
        &mut self,
        snap: Snapshot,
        st: &mut FeedState,
        backoff: &mut Backoff,
        local: u64,
    ) -> (r: SnapshotReport)
        requires
            old(st).stats.resyncs < u64::MAX,
            old(st).stats.gaps < u64::MAX,
        ensures
            final(self).last_frame == old(self).last_frame,
            final(self).last_depth == old(self).last_depth,
            is_supplied(
                *old(self),
                *final(self),
                *old(st),
                *final(st),
                *old(backoff),
                *final(backoff),
                snap,
                local,
                r,
            ),
    {
        let id: u64 = snap.last_update_id;
        let buffered: usize = self.syncer.buffered();
        let ghost before = self.syncer.phase;
        let ghost book = st.book;
        let outcome = self.syncer.on_snapshot(snap, &mut st.book);
        let ghost between = self.syncer.phase;
        match outcome {
            Ok(applied) => {
                st.last_seq = Some(id);
                st.last_local_ms = Some(local);
                st.touch();
                let live = self.syncer.is_live();
                if live {
                    st.set_status(FeedStatus::Live);
                    backoff.reset();
                }
                let (bids, asks): (usize, usize) = st.book.depth();
                SnapshotReport::Installed { bids, asks, buffered, applied, live }
            },
            Err(e) => {
                if let SyncError::Gap(_) = &e {
                    st.stats.gaps = st.stats.gaps + 1;
                }
                self.resync(st);
                assert(is_installed(before, between, book, st.book, snap, Err(e)));
                SnapshotReport::Refused(e)
            },
        }
    }

    /// A snapshot has stayed out.
    pub fn on_snapshot_failed(&mut self)
        ensures
            *final(self) == (BinanceSession { need_snapshot: true, ..*old(self) }),
    {
        self.need_snapshot = true;
    }

    /// Whether to ask for a snapshot now: one is needed, and none is under way.
    pub fn wants_snapshot(&self, under_way: bool) -> (r: bool)
        ensures
            r == (self.need_snapshot && !under_way),
    {
        self.need_snapshot && !under_way
    }

    /// A snapshot has been asked for.
    pub fn on_snapshot_requested(&mut self)
        ensures
            *final(self) == (BinanceSession { need_snapshot: false, ..*old(self) }),
    {
        self.need_snapshot = false;
    }

    /// A second has passed. A connection without frames is given up, and then the feed is left as it
    /// is; otherwise its freshness is looked at.
    pub fn on_tick(&self, st: &mut FeedState, now: u64) -> (r: Result<Freshness, Silence>)
        ensures
            since(now, self.last_frame) > DEAD_AFTER_MS ==> r == Err::<Freshness, Silence>(
                Silence::NoFrames,
            ) && *final(st) == *old(st),
            since(now, self.last_frame) <= DEAD_AFTER_MS ==> r == Ok::<Freshness, Silence>(
                freshness(old(st).status, since(now, self.last_depth)),
            ) && *final(st) == freshened(*old(st), since(now, self.last_depth)),
    {
        if now.saturating_sub(self.last_frame) > DEAD_AFTER_MS {
            return Err(Silence::NoFrames);
        }
        Ok(check_freshness(st, now.saturating_sub(self.last_depth)))
    }
}

/// An update that is taken in, or refused, leaves no feed live whose book is crossed.
pub proof fn law_live_feed_is_uncrossed(
    s: BinanceSession,
    after: BinanceSession,
    st: FeedState,
    st_after: FeedState,
    waits: Backoff,
    waits_after: Backoff,
    ev: DepthUpdate,
    local: u64,
    r: DepthReport,
)
    requires
        is_followed(s, after, st, st_after, waits, waits_after, ev, local, r),
        !(r is Kept),
        !(r is Ignored),
    ensures
        st_after.status == FeedStatus::Live ==> !st_after.book.crossed(),
{
}

/// An update that changes the book is worth showing, unless it leaves the book crossed.
pub proof fn law_applied_update_is_news(
    s: BinanceSession,
    after: BinanceSession,
    st: FeedState,
    st_after: FeedState,
    waits: Backoff,
    waits_after: Backoff,
    ev: DepthUpdate,
    local: u64,
    r: DepthReport,
)
    requires
        is_followed(s, after, st, st_after, waits, waits_after, ev, local, r),
        st_after.book != st.book,
        !st_after.book.crossed(),
    ensures
        st_after.version == next_version(st.version),
        st_after.version != st.version,
        st_after.status == FeedStatus::Live,
        st_after.last_seq == Some(ev.last_id),
{
}

/// Each update is counted once. One that needs a new snapshot is counted as a resync as well, and
/// one before which updates are missing as a gap. Nothing else is counted, and the last error stays.
pub proof fn law_each_update_counts_once(
    s: BinanceSession,
    after: BinanceSession,
    st: FeedState,
    st_after: FeedState,
    waits: Backoff,
    waits_after: Backoff,
    ev: DepthUpdate,
    local: u64,
    r: DepthReport,
)
    requires
        is_followed(s, after, st, st_after, waits, waits_after, ev, local, r),
        has_room(s.syncer.phase, st.stats, ev),
    ensures
        st_after.stats.messages == st.stats.messages + 1,
        st_after.stats.resyncs == st.stats.resyncs + if r is Crossed || r is Refused {
            1int
        } else {
            0
        },
        st_after.stats.gaps == st.stats.gaps + if r is Refused && r->Refused_0 is Gap {
            1int
        } else {
            0
        },
        st_after.stats.reconnects == st.stats.reconnects,
        st_after.stats.last_error == st.stats.last_error,
{
}

/// A session that starts over keeps the next update for the new snapshot, and leaves the book as it
/// is.
pub proof fn law_starting_over_keeps_updates(
    s: BinanceSession,
    after: BinanceSession,
    st: FeedState,
    st_after: FeedState,
    waits: Backoff,
    waits_after: Backoff,
    ev: DepthUpdate,
    local: u64,
    r: DepthReport,
)
    requires
        starts_over(s),
        is_followed(s, after, st, st_after, waits, waits_after, ev, local, r),
    ensures
        r is Kept,
        is_buffering(after.syncer.phase, seq![ev]),
        after.need_snapshot,
        st_after.book == st.book,
{
    assert(Seq::<DepthUpdate>::empty().push(ev) =~= seq![ev]);
}

} // verus!
