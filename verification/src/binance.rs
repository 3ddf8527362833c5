//! Keeping a book in sync from a snapshot and numbered updates.

use crate::book::{
    all_changed, all_readable, level_map, levels_of, listed, parse_levels, reports_first, Level,
    LevelError, OrderBook,
};
use crate::decimal::whole_digits;
use crate::text::number_text;
use vstd::prelude::*;

verus! {

/// How many updates can be kept while a snapshot is awaited.
pub const MAX_BUFFER: usize = 20000;

/// Changes to a book: the updates that they stand for have the numbers `first_id` to `last_id`.
#[derive(Clone, Debug)]
pub struct DepthUpdate {
    pub event_time: u64,
    pub first_id: u64,
    pub last_id: u64,
    pub bids: Vec<(String, String)>,
    pub asks: Vec<(String, String)>,
}

/// A book as it was after the update with the number `last_update_id`.
#[derive(Debug)]
pub struct Snapshot {
    pub last_update_id: u64,
    pub bids: Vec<(String, String)>,
    pub asks: Vec<(String, String)>,
}

/// What became of an update.
#[derive(Clone, Copy, Debug, PartialEq, Eq, Structural)]
pub enum Outcome {
    Buffered,
    Ignored,
    Applied,
}

/// Updates are missing: the next should have begun with `expected` and began with `got`.
#[derive(Clone, Copy, Debug)]
pub struct Gap {
    pub expected: u64,
    pub got: u64,
}

impl Gap {
    /// The gap as text.
    pub open spec fn text(self) -> Seq<char> {
        "sequence gap: expected U="@ + whole_digits(self.expected as int) + " got U="@
            + whole_digits(self.got as int)
    }

    /// The gap as text.
    pub fn message(&self) -> (r: String)
        ensures
            r@ == self.text(),
    {
        let mut r = String::from_str("sequence gap: expected U=");
        r.append(number_text(self.expected).as_str());
        r.append(" got U=");
        r.append(number_text(self.got).as_str());
        r
    }
}

/// Why an update or a snapshot was refused.
#[derive(Debug)]
pub enum SyncError {
    /// No more updates can be kept.
    BufferFull,
    /// Updates are missing.
    Gap(Gap),
    /// A level cannot be read.
    BadLevel(LevelError),
}

impl SyncError {
    /// The error as text.
    pub open spec fn text(self) -> Seq<char> {
        match self {
            SyncError::BufferFull => "buffer overflow while waiting for snapshot"@,
            SyncError::Gap(g) => g.text(),
            SyncError::BadLevel(e) => e.text(),
        }
    }

    /// The error as text.
    pub fn message(&self) -> (r: String)
        ensures
            r@ == self.text(),
    {
        match self {
            SyncError::BufferFull => String::from_str("buffer overflow while waiting for snapshot"),
            SyncError::Gap(g) => g.message(),
            SyncError::BadLevel(e) => e.message(),
        }
    }
}

/// How far a book is in sync.
#[derive(Debug)]
pub enum Phase {
    /// Updates are kept until a snapshot comes.
    Buffering(Vec<DepthUpdate>),
    /// The snapshot is in, and no update after it.
    AwaitFirst { last_update_id: u64 },
    /// Every update up to `last_u` is in.
    Live { last_u: u64 },
}

/// Keeps a book in sync.
#[derive(Debug)]
pub struct Syncer {
    pub phase: Phase,
}

/// What the rules make of an update.
pub enum Verdict {
    Ignored,
    Gap,
    Unreadable,
    Applied,
}

/// Whether updates are missing between the number `seq`, up to which everything is in, and an update
/// that brings something new. Right after a snapshot an update may begin before the next number;
/// later it must begin with it.
pub open spec fn skips(live: bool, seq: u64, ev: DepthUpdate) -> bool {
    ev.last_id > seq && (ev.first_id > seq + 1 || (live && ev.first_id != seq + 1))
}

/// What the rules make of an update when everything up to the number `seq` is in. An update that
/// brings nothing new is ignored.
pub open spec fn verdict(live: bool, seq: u64, ev: DepthUpdate) -> Verdict {
    if ev.last_id <= seq {
        Verdict::Ignored
    } else if skips(live, seq, ev) {
        Verdict::Gap
    } else if !all_readable(ev.bids@) || !all_readable(ev.asks@) {
        Verdict::Unreadable
    } else {
        Verdict::Applied
    }
}

/// Whether `e` tells why the levels of a message cannot be read: the first bad bid, else the first
/// bad ask.
pub open spec fn tells_unreadable(
    e: LevelError,
    bids: Seq<(String, String)>,
    asks: Seq<(String, String)>,
) -> bool {
    if all_readable(bids) {
        reports_first(e, asks)
    } else {
        reports_first(e, bids)
    }
}

/// Whether `e` tells why an update was refused.
pub open spec fn tells_refusal(e: SyncError, live: bool, seq: u64, ev: DepthUpdate) -> bool {
    match verdict(live, seq, ev) {
        Verdict::Gap => e matches SyncError::Gap(g) && g.expected == seq + 1 && g.got
            == ev.first_id,
        Verdict::Unreadable => e matches SyncError::BadLevel(l) && tells_unreadable(
            l,
            ev.bids@,
            ev.asks@,
        ),
        _ => false,
    }
}

/// A book that is in sync up to a number, as far as the rules speak of it.
pub struct Synced {
    pub live: bool,
    pub seq: u64,
    pub bids: Map<int, Level>,
    pub asks: Map<int, Level>,
}

/// The book after an update that the rules apply.
pub open spec fn after_update(m: Synced, ev: DepthUpdate) -> Synced {
    Synced {
        live: true,
        seq: ev.last_id,
        bids: all_changed(m.bids, levels_of(ev.bids@)),
        asks: all_changed(m.asks, levels_of(ev.asks@)),
    }
}

/// Whether a syncer and its book are in sync as `m` says.
pub open spec fn is_synced(phase: Phase, book: OrderBook, m: Synced) -> bool {
    &&& phase == if m.live {
        Phase::Live { last_u: m.seq }
    } else {
        Phase::AwaitFirst { last_update_id: m.seq }
    }
    &&& level_map(book.bids()) == m.bids
    &&& level_map(book.asks()) == m.asks
}

/// How far a series of updates has come.
pub struct Replay {
    pub at: Synced,
    /// How many updates were applied.
    pub applied: nat,
    /// The update that was refused.
    pub refused: Option<DepthUpdate>,
}

/// A series of updates, one after the other, up to the first that is refused.
pub open spec fn replayed(from: Synced, evs: Seq<DepthUpdate>) -> Replay
    decreases evs.len(),
{
    if evs.len() == 0 {
        Replay { at: from, applied: 0, refused: None }
    } else {
        let so_far = replayed(from, evs.drop_last());
        if so_far.refused is Some {
            so_far
        } else {
            match verdict(so_far.at.live, so_far.at.seq, evs.last()) {
                Verdict::Ignored => so_far,
                Verdict::Applied => Replay {
                    at: after_update(so_far.at, evs.last()),
                    applied: so_far.applied + 1,
                    refused: None,
                },
                _ => Replay { refused: Some(evs.last()), ..so_far },
            }
        }
    }
}

/// The book that a readable snapshot describes.
pub open spec fn snapshot_book(snap: Snapshot) -> Synced {
    Synced {
        live: false,
        seq: snap.last_update_id,
        bids: listed(levels_of(snap.bids@)),
        asks: listed(levels_of(snap.asks@)),
    }
}

/// The updates that a phase keeps.
pub open spec fn kept(phase: Phase) -> Seq<DepthUpdate> {
    match phase {
        Phase::Buffering(buf) => buf@,
        _ => Seq::empty(),
    }
}

/// Whether a phase keeps exactly the given updates.
pub open spec fn is_buffering(phase: Phase, evs: Seq<DepthUpdate>) -> bool {
    phase matches Phase::Buffering(buf) && buf@ == evs
}

/// Where a phase is in sync: whether an update has followed the snapshot, and up to which number.
pub open spec fn sync_point(phase: Phase) -> Option<(bool, u64)> {
    match phase {
        Phase::Buffering(_) => None,
        Phase::AwaitFirst { last_update_id } => Some((false, last_update_id)),
        Phase::Live { last_u } => Some((true, last_u)),
    }
}

/// What an update does to a syncer and its book. While a snapshot is awaited it is kept. Otherwise
/// the rules decide; an update that they do not apply changes nothing.
pub open spec fn is_updated(
    before: Phase,
    after: Phase,
    book: OrderBook,
    book_after: OrderBook,
    ev: DepthUpdate,
    r: Result<Outcome, SyncError>,
) -> bool {
    match sync_point(before) {
        None => {
            &&& book_after == book
            &&& if kept(before).len() >= MAX_BUFFER {
                after == before && r == Err::<Outcome, SyncError>(SyncError::BufferFull)
            } else {
                is_buffering(after, kept(before).push(ev)) && r == Ok::<Outcome, SyncError>(
                    Outcome::Buffered,
                )
            }
        },
        Some((live, seq)) => match verdict(live, seq, ev) {
            Verdict::Ignored => {
                &&& book_after == book
                &&& after == before
                &&& r == Ok::<Outcome, SyncError>(Outcome::Ignored)
            },
            Verdict::Applied => {
                &&& is_synced(
                    after,
                    book_after,
                    after_update(
                        Synced {
                            live,
                            seq,
                            bids: level_map(book.bids()),
                            asks: level_map(book.asks()),
                        },
                        ev,
                    ),
                )
                &&& r == Ok::<Outcome, SyncError>(Outcome::Applied)
            },
            _ => {
                &&& book_after == book
                &&& after == before
                &&& r matches Err(e) && tells_refusal(e, live, seq, ev)
            },
        },
    }
}

/// What a snapshot does to a syncer and its book. One that cannot be read leaves the book alone and
/// drops the updates that were kept. Otherwise the book becomes the snapshot's, and the updates that
/// were kept follow, up to the first that is refused.
pub open spec fn is_installed(
    before: Phase,
    after: Phase,
    book: OrderBook,
    book_after: OrderBook,
    snap: Snapshot,
    r: Result<usize, SyncError>,
) -> bool {
    if !all_readable(snap.bids@) || !all_readable(snap.asks@) {
        &&& book_after == book
        &&& is_buffering(after, Seq::empty())
        &&& r matches Err(SyncError::BadLevel(e)) && tells_unreadable(e, snap.bids@, snap.asks@)
    } else {
        let end = replayed(snapshot_book(snap), kept(before));
        &&& is_synced(after, book_after, end.at)
        &&& match end.refused {
            None => r matches Ok(applied) && applied == end.applied,
            Some(ev) => r matches Err(e) && tells_refusal(e, end.at.live, end.at.seq, ev),
        }
    }
}

/// Whether an update can make the syncer start over: it cannot be kept, or it brings something new.
pub open spec fn may_start_over(phase: Phase, ev: DepthUpdate) -> bool {
    match sync_point(phase) {
        None => kept(phase).len() >= MAX_BUFFER,
        Some((_, seq)) => ev.last_id > seq,
    }
}

/// Whether updates are missing before an update.
pub open spec fn leaves_gap(phase: Phase, ev: DepthUpdate) -> bool {
    sync_point(phase) matches Some((live, seq)) && skips(live, seq, ev)
}

impl Syncer {
    /// Whether an update can make the syncer start over, and whether updates are missing before it.
    pub fn foresees(&self, ev: &DepthUpdate) -> (r: (bool, bool))
        ensures
            r.0 == may_start_over(self.phase, *ev),
            r.1 == leaves_gap(self.phase, *ev),
    {
        let (live, seq): (bool, u64) = match &self.phase {
            Phase::Buffering(buf) => {
                return (buf.len() >= MAX_BUFFER, false);
            },
            Phase::AwaitFirst { last_update_id } => (false, *last_update_id),
            Phase::Live { last_u } => (true, *last_u),
        };
        if ev.last_id <= seq {
            return (false, false);
        }
        let expected: u64 = seq + 1;
        (true, ev.first_id > expected || (live && ev.first_id != expected))
    }

    /// A syncer that awaits a snapshot.
    pub fn new() -> (r: Syncer)
        ensures
            is_buffering(r.phase, Seq::empty()),
    {
        Syncer { phase: Phase::Buffering(Vec::new()) }
    }

    /// Starts again.
    pub fn reset(&mut self)
        ensures
            is_buffering(final(self).phase, Seq::empty()),
    {
        self.phase = Phase::Buffering(Vec::new());
    }

    /// Whether updates have followed the snapshot.
    pub fn is_live(&self) -> (r: bool)
        ensures
            r == (self.phase is Live),
    {
        matches!(self.phase, Phase::Live { .. })
    }

    /// How many updates are kept.
    pub fn buffered(&self) -> (r: usize)
        ensures
            r == kept(self.phase).len(),
    {
        match &self.phase {
            Phase::Buffering(b) => b.len(),
            _ => 0,
        }
    }

    /// Reads the levels of an update and applies them.
    fn apply(ev: &DepthUpdate, book: &mut OrderBook) -> (r: Result<(), LevelError>)
        ensures
            r is Ok <==> all_readable(ev.bids@) && all_readable(ev.asks@),
            r is Err ==> *final(book) == *old(book),
            r matches Err(e) ==> tells_unreadable(e, ev.bids@, ev.asks@),
            r is Ok ==> {
                &&& level_map(final(book).bids()) == all_changed(
                    level_map(old(book).bids()),
                    levels_of(ev.bids@),
                )
                &&& level_map(final(book).asks()) == all_changed(
                    level_map(old(book).asks()),
                    levels_of(ev.asks@),
                )
            },
    {
        let bids = match parse_levels(ev.bids.as_slice()) {
            Ok(bids) => bids,
            Err(e) => {
                return Err(e);
            },
        };
        let asks = match parse_levels(ev.asks.as_slice()) {
            Ok(asks) => asks,
            Err(e) => {
                return Err(e);
            },
        };
        book.apply_delta(bids.as_slice(), asks.as_slice());
        Ok(())
    }

    /// Takes an update to a book that is in sync up to `seq`.
    fn follow(&mut self, live: bool, seq: u64, ev: &DepthUpdate, book: &mut OrderBook) -> (r: Result<
        Outcome,
        SyncError,
    >)
        requires
            sync_point(old(self).phase) == Some((live, seq)),
        ensures
            is_updated(old(self).phase, final(self).phase, *old(book), *final(book), *ev, r),
            !(r matches Ok(Outcome::Buffered)),
    {
        if ev.last_id <= seq {
            return Ok(Outcome::Ignored);
        }
        let expected: u64 = seq + 1;
        if ev.first_id > expected || (live && ev.first_id != expected) {
            return Err(SyncError::Gap(Gap { expected, got: ev.first_id }));
        }
        match Self::apply(ev, book) {
            Ok(()) => {},
            Err(e) => {
                return Err(SyncError::BadLevel(e));
            },
        }
        self.phase = Phase::Live { last_u: ev.last_id };
        Ok(Outcome::Applied)
    }

    /// Takes an update.
    pub fn on_update(&mut self, ev: DepthUpdate, book: &mut OrderBook) -> (r: Result<
        Outcome,
        SyncError,
    >)
        ensures
            is_updated(old(self).phase, final(self).phase, *old(book), *final(book), ev, r),
    {
        let (live, seq): (bool, u64) = match &mut self.phase {
            Phase::Buffering(buf) => {
                if buf.len() >= MAX_BUFFER {
                    return Err(SyncError::BufferFull);
                }
                buf.push(ev);
                return Ok(Outcome::Buffered);
            },
            Phase::AwaitFirst { last_update_id } => (false, *last_update_id),
            Phase::Live { last_u } => (true, *last_u),
        };
        self.follow(live, seq, &ev, book)
    }

    /// Takes a snapshot, and the updates that were kept for it.
    pub fn on_snapshot(&mut self, snap: Snapshot, book: &mut OrderBook) -> (r: Result<
        usize,
        SyncError,
    >)
        ensures
            is_installed(old(self).phase, final(self).phase, *old(book), *final(book), snap, r),
    {
        let mut before = Phase::Buffering(Vec::new());
        std::mem::swap(&mut before, &mut self.phase);
        let buffered: Vec<DepthUpdate> = match before {
            Phase::Buffering(b) => b,
            _ => Vec::new(),
        };
        assert(buffered@ =~= kept(old(self).phase));
        let bids = match parse_levels(snap.bids.as_slice()) {
            Ok(bids) => bids,
            Err(e) => {
                return Err(SyncError::BadLevel(e));
            },
        };
        let asks = match parse_levels(snap.asks.as_slice()) {
            Ok(asks) => asks,
            Err(e) => {
                return Err(SyncError::BadLevel(e));
            },
        };
        book.replace(bids, asks);
        self.phase = Phase::AwaitFirst { last_update_id: snap.last_update_id };
        let mut live = false;
        let mut seq: u64 = snap.last_update_id;
        let mut applied: usize = 0;
        let ghost from = snapshot_book(snap);
        for i in 0..buffered.len()
            invariant
                applied <= i,
                replayed(from, buffered@.take(i as int)).refused is None,
                replayed(from, buffered@.take(i as int)).applied == applied,
                replayed(from, buffered@.take(i as int)).at.live == live,
                replayed(from, buffered@.take(i as int)).at.seq == seq,
                is_synced(self.phase, *book, replayed(from, buffered@.take(i as int)).at),
                buffered@ == kept(old(self).phase),
                all_readable(snap.bids@),
                all_readable(snap.asks@),
                from == snapshot_book(snap),
        {
            let ghost so_far = replayed(from, buffered@.take(i as int));
            proof {
                assert(buffered@.take(i + 1).drop_last() =~= buffered@.take(i as int));
            }
            match self.follow(live, seq, &buffered[i], book) {
                Ok(Outcome::Applied) => {
                    live = true;
                    seq = buffered[i].last_id;
                    applied += 1;
                },
                Ok(_) => {},
                Err(e) => {
                    proof {
                        lemma_refused_stays(from, buffered@, i + 1);
                    }
                    return Err(e);
                },
            }
        }
        assert(buffered@.take(buffered.len() as int) =~= buffered@);
        Ok(applied)
    }
}

/// What follows a refused update changes nothing.
pub proof fn lemma_refused_stays(from: Synced, evs: Seq<DepthUpdate>, k: int)
    requires
        0 <= k <= evs.len(),
        replayed(from, evs.take(k)).refused is Some,
    ensures
        replayed(from, evs) == replayed(from, evs.take(k)),
    decreases evs.len() - k,
{
    if k == evs.len() {
        assert(evs.take(k) =~= evs);
    } else {
        assert(evs.take(k + 1).drop_last() =~= evs.take(k));
        lemma_refused_stays(from, evs, k + 1);
    }
}

/// Updates that were kept for a snapshot have the effect of updates that come after it: a series in
/// one go is its first part and then, unless that was refused, its second part.
pub proof fn law_keeping_changes_nothing(
    from: Synced,
    first: Seq<DepthUpdate>,
    second: Seq<DepthUpdate>,
)
    ensures
        replayed(from, first + second) == {
            let a = replayed(from, first);
            if a.refused is Some {
                a
            } else {
                let b = replayed(a.at, second);
                Replay { applied: a.applied + b.applied, ..b }
            }
        },
    decreases second.len(),
{
    if second.len() == 0 {
        assert(first + second =~= first);
    } else {
        assert((first + second).drop_last() =~= first + second.drop_last());
        law_keeping_changes_nothing(from, first, second.drop_last());
    }
}

/// An update to a book that is in sync is a series of one.
pub proof fn law_update_is_a_series_of_one(
    m: Synced,
    before: Phase,
    after: Phase,
    book: OrderBook,
    book_after: OrderBook,
    ev: DepthUpdate,
    r: Result<Outcome, SyncError>,
)
    requires
        is_synced(before, book, m),
        is_updated(before, after, book, book_after, ev, r),
    ensures
        is_synced(after, book_after, replayed(m, seq![ev]).at),
        r == Ok::<Outcome, SyncError>(Outcome::Applied) <==> replayed(m, seq![ev]).applied == 1,
        r is Err <==> replayed(m, seq![ev]).refused == Some(ev),
{
    reveal_with_fuel(replayed, 2);
    assert(seq![ev].drop_last() =~= Seq::<DepthUpdate>::empty());
    assert(seq![ev].last() == ev);
}

/// The number up to which a book is in sync never goes back, and it moves with every update that is
/// applied.
pub proof fn law_sequence_never_goes_back(from: Synced, evs: Seq<DepthUpdate>)
    ensures
        replayed(from, evs).at.seq >= from.seq + replayed(from, evs).applied,
        replayed(from, evs).applied == 0 ==> replayed(from, evs).at == from,
    decreases evs.len(),
{
    if evs.len() > 0 {
        law_sequence_never_goes_back(from, evs.drop_last());
    }
}

/// After a snapshot a book is live once an update has been applied, and not before.
pub proof fn law_live_once_applied(snap: Snapshot, evs: Seq<DepthUpdate>)
    ensures
        replayed(snapshot_book(snap), evs).at.live <==> replayed(snapshot_book(snap), evs).applied
            > 0,
    decreases evs.len(),
{
    if evs.len() > 0 {
        law_live_once_applied(snap, evs.drop_last());
    }
}

/// Updates that a snapshot holds already leave it as it is.
pub proof fn law_old_updates_are_ignored(from: Synced, evs: Seq<DepthUpdate>)
    requires
        forall|i: int| 0 <= i < evs.len() ==> (#[trigger] evs[i]).last_id <= from.seq,
    ensures
        replayed(from, evs) == (Replay { at: from, applied: 0, refused: None }),
    decreases evs.len(),
{
    if evs.len() > 0 {
        let before = evs.drop_last();
        assert forall|i: int| 0 <= i < before.len() implies (#[trigger] before[i]).last_id
            <= from.seq by {
            assert(before[i] == evs[i]);
        }
        law_old_updates_are_ignored(from, before);
        assert(evs[evs.len() - 1].last_id <= from.seq);
    }
}

/// Where every update of a series is applied, nothing is missing: the first follows on what was in
/// sync before, each other begins with the number after the one before it, and the last is where the
/// book stands.
pub proof fn law_applied_updates_are_contiguous(from: Synced, evs: Seq<DepthUpdate>)
    requires
        evs.len() > 0,
        replayed(from, evs).applied == evs.len(),
    ensures
        evs[0].first_id <= from.seq + 1 <= evs[0].last_id,
        from.live ==> evs[0].first_id == from.seq + 1,
        forall|i: int|
            1 <= i < evs.len() ==> (#[trigger] evs[i]).first_id == evs[i - 1].last_id + 1,
        replayed(from, evs).at.seq == evs.last().last_id,
        replayed(from, evs).at.live,
    decreases evs.len(),
{
    let before = evs.drop_last();
    lemma_applied_at_most(from, before);
    if before.len() > 0 {
        law_applied_updates_are_contiguous(from, before);
        assert forall|i: int| 1 <= i < evs.len() implies (#[trigger] evs[i]).first_id == evs[i
            - 1].last_id + 1 by {
            if i < before.len() {
                assert(before[i] == evs[i] && before[i - 1] == evs[i - 1]);
            }
        }
    }
}

/// No more updates are applied than there are.
pub proof fn lemma_applied_at_most(from: Synced, evs: Seq<DepthUpdate>)
    ensures
        replayed(from, evs).applied <= evs.len(),
    decreases evs.len(),
{
    if evs.len() > 0 {
        lemma_applied_at_most(from, evs.drop_last());
    }
}

} // verus!
