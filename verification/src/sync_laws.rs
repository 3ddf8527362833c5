//! What snapshots and numbered updates do to a book, in terms of what they name.

use crate::binance::{
    is_buffering, is_installed, is_synced, is_updated, kept, leaves_gap, lemma_applied_at_most,
    lemma_refused_stays, may_start_over, replayed, snapshot_book, DepthUpdate, Outcome, Phase,
    Snapshot, SyncError, Synced,
};
use crate::book::{
    all_changed, all_readable, is_readable, law_changes_add_up, law_ladder_is_its_map, level_map,
    levels_of, OrderBook,
};
use crate::book_laws::{
    both_read, law_first_bad_level_is_reported, law_levels_are_read_one_by_one,
    lemma_reads_as_changed, lemma_reads_as_listed, reads_as_changed, reads_as_listed,
    tells_first_bad,
};
use vstd::prelude::*;

verus! {

/// Whether every price and every quantity of a list is a number.
pub open spec fn reads_through(raw: Seq<(String, String)>) -> bool {
    forall|i: int| 0 <= i < raw.len() ==> both_read(#[trigger] raw[i])
}

/// The list whose first bad level is reported: the bids, or the asks where every bid can be read.
pub open spec fn list_at_fault(
    bids: Seq<(String, String)>,
    asks: Seq<(String, String)>,
) -> Seq<(String, String)> {
    if reads_through(bids) {
        asks
    } else {
        bids
    }
}

/// While a snapshot is awaited, an update joins the end of those that are kept, and the book stays as
/// it is. Once twenty thousand are kept, one more is refused.
pub proof fn law_updates_wait_for_the_snapshot(
    before: Phase,
    after: Phase,
    book: OrderBook,
    book_after: OrderBook,
    ev: DepthUpdate,
    r: Result<Outcome, SyncError>,
)
    requires
        is_updated(before, after, book, book_after, ev, r),
        before is Buffering,
    ensures
        book_after == book,
        before->Buffering_0@.len() < 20000 ==> r == Ok::<Outcome, SyncError>(Outcome::Buffered)
            && (after matches Phase::Buffering(buf) && buf@ == before->Buffering_0@.push(ev)),
        before->Buffering_0@.len() >= 20000 ==> r == Err::<Outcome, SyncError>(
            SyncError::BufferFull,
        ) && after == before,
{
}

/// A syncer that keeps updates keeps exactly those.
pub proof fn law_kept_updates_are_those(phase: Phase, evs: Seq<DepthUpdate>)
    ensures
        is_buffering(phase, evs) <==> (phase matches Phase::Buffering(buf) && buf@ == evs),
{
}

/// An update makes the syncer start over only where that is foreseen: where it is refused, and where
/// it is applied, so that the book may be crossed. That updates are missing is foreseen exactly.
pub proof fn law_starting_over_is_foreseen(
    before: Phase,
    after: Phase,
    book: OrderBook,
    book_after: OrderBook,
    ev: DepthUpdate,
    r: Result<Outcome, SyncError>,
)
    requires
        is_updated(before, after, book, book_after, ev, r),
    ensures
        may_start_over(before, ev) <==> r is Err || r == Ok::<Outcome, SyncError>(Outcome::Applied),
        leaves_gap(before, ev) <==> (r matches Err(SyncError::Gap(_))),
{
}

/// The number up to which everything is in, of a book that has its snapshot.
pub open spec fn reached(phase: Phase) -> u64 {
    match phase {
        Phase::Buffering(_) => 0,
        Phase::AwaitFirst { last_update_id } => last_update_id,
        Phase::Live { last_u } => last_u,
    }
}

/// An update whose numbers are all in already is ignored, and no other is.
pub proof fn law_old_update_is_ignored(
    before: Phase,
    after: Phase,
    book: OrderBook,
    book_after: OrderBook,
    ev: DepthUpdate,
    r: Result<Outcome, SyncError>,
)
    requires
        is_updated(before, after, book, book_after, ev, r),
        !(before is Buffering),
    ensures
        ev.last_id <= reached(before) <==> r == Ok::<Outcome, SyncError>(Outcome::Ignored),
        ev.last_id <= reached(before) ==> after == before && book_after == book,
        !(r == Ok::<Outcome, SyncError>(Outcome::Buffered)),
{
}

/// An update that brings something new and begins beyond the next number reports the gap: the number
/// that was expected and the one that came. So does one that begins before the next number, unless it
/// is the first after the snapshot. No other update reports a gap, and a gap changes nothing.
pub proof fn law_missing_updates_are_reported(
    before: Phase,
    after: Phase,
    book: OrderBook,
    book_after: OrderBook,
    ev: DepthUpdate,
    r: Result<Outcome, SyncError>,
)
    requires
        is_updated(before, after, book, book_after, ev, r),
        !(before is Buffering),
    ensures
        (r matches Err(SyncError::Gap(_))) <==> ev.last_id > reached(before) && (ev.first_id
            > reached(before) + 1 || (before is Live && ev.first_id < reached(before) + 1)),
        r matches Err(SyncError::Gap(g)) ==> g.expected == reached(before) + 1 && g.got
            == ev.first_id && after == before && book_after == book,
{
}

/// An update that follows on what is in is applied where all of its levels can be read, and then
/// everything up to its last number is in. Where some level cannot be read nothing changes, and the
/// first such level is reported, of the bids before the asks.
pub proof fn law_next_update_is_applied(
    before: Phase,
    after: Phase,
    book: OrderBook,
    book_after: OrderBook,
    ev: DepthUpdate,
    r: Result<Outcome, SyncError>,
)
    requires
        is_updated(before, after, book, book_after, ev, r),
        !(before is Buffering),
        ev.last_id > reached(before),
        ev.first_id == reached(before) + 1 || (before is AwaitFirst && ev.first_id <= reached(
            before,
        )),
    ensures
        r == Ok::<Outcome, SyncError>(Outcome::Applied) <==> reads_through(ev.bids@)
            && reads_through(ev.asks@),
        r is Ok ==> after == (Phase::Live { last_u: ev.last_id }),
        r is Err ==> after == before && book_after == book && r->Err_0 is BadLevel,
        r matches Err(SyncError::BadLevel(e)) ==> exists|i: int|
            tells_first_bad(e, list_at_fault(ev.bids@, ev.asks@), i),
{
    law_levels_are_read_one_by_one(ev.bids@);
    law_levels_are_read_one_by_one(ev.asks@);
    if let Err(SyncError::BadLevel(e)) = r {
        let raw = list_at_fault(ev.bids@, ev.asks@);
        law_first_bad_level_is_reported(e, raw);
    }
}

/// Only an update that follows on what is in is applied, whether it is the first after the snapshot
/// or not. On both sides the book then reads at every price as the update asks: the last quantity
/// that it names there, and what rested there before where it names none.
pub proof fn law_applied_update_is_in_the_book(
    before: Phase,
    after: Phase,
    book: OrderBook,
    book_after: OrderBook,
    ev: DepthUpdate,
    r: Result<Outcome, SyncError>,
    k: int,
)
    requires
        is_updated(before, after, book, book_after, ev, r),
        r == Ok::<Outcome, SyncError>(Outcome::Applied),
        book.wf(),
        book_after.wf(),
    ensures
        !(before is Buffering),
        ev.first_id <= reached(before) + 1 <= ev.last_id,
        before is Live ==> ev.first_id == reached(before) + 1,
        reads_through(ev.bids@),
        reads_through(ev.asks@),
        reads_as_changed(book.bids(), book_after.bids(), ev.bids@, k),
        reads_as_changed(book.asks(), book_after.asks(), ev.asks@, k),
        after == (Phase::Live { last_u: ev.last_id }),
{
    law_levels_are_read_one_by_one(ev.bids@);
    law_levels_are_read_one_by_one(ev.asks@);
    lemma_reads_as_changed(book.bids(), book_after.bids(), ev.bids@, k);
    lemma_reads_as_changed(book.asks(), book_after.asks(), ev.asks@, k);
}

/// What updates name for the bids, one update after the other.
pub open spec fn all_bids(evs: Seq<DepthUpdate>) -> Seq<(String, String)>
    decreases evs.len(),
{
    if evs.len() == 0 {
        Seq::empty()
    } else {
        all_bids(evs.drop_last()) + evs.last().bids@
    }
}

/// What updates name for the asks, one update after the other.
pub open spec fn all_asks(evs: Seq<DepthUpdate>) -> Seq<(String, String)>
    decreases evs.len(),
{
    if evs.len() == 0 {
        Seq::empty()
    } else {
        all_asks(evs.drop_last()) + evs.last().asks@
    }
}

/// A list of two parts is read part by part.
proof fn lemma_levels_of_parts(a: Seq<(String, String)>, b: Seq<(String, String)>)
    ensures
        levels_of(a + b) == levels_of(a) + levels_of(b),
        all_readable(a) && all_readable(b) ==> all_readable(a + b),
{
    assert(levels_of(a + b) =~= levels_of(a) + levels_of(b));
    if all_readable(a) && all_readable(b) {
        assert forall|i: int| 0 <= i < (a + b).len() implies is_readable(
            #[trigger] (a + b)[i],
        ) by {
            if i < a.len() {
                assert((a + b)[i] == a[i]);
            } else {
                assert((a + b)[i] == b[i - a.len()]);
            }
        }
    }
}

proof fn lemma_series_changes(from: Synced, evs: Seq<DepthUpdate>)
    requires
        replayed(from, evs).applied == evs.len(),
    ensures
        all_readable(all_bids(evs)),
        all_readable(all_asks(evs)),
        replayed(from, evs).at.bids == all_changed(from.bids, levels_of(all_bids(evs))),
        replayed(from, evs).at.asks == all_changed(from.asks, levels_of(all_asks(evs))),
    decreases evs.len(),
{
    if evs.len() == 0 {
        assert(levels_of(all_bids(evs)) =~= Seq::empty());
        assert(levels_of(all_asks(evs)) =~= Seq::empty());
    } else {
        let rest = evs.drop_last();
        let ev = evs.last();
        lemma_applied_at_most(from, rest);
        lemma_series_changes(from, rest);
        lemma_levels_of_parts(all_bids(rest), ev.bids@);
        lemma_levels_of_parts(all_asks(rest), ev.asks@);
        law_changes_add_up(from.bids, levels_of(all_bids(rest)), levels_of(ev.bids@));
        law_changes_add_up(from.asks, levels_of(all_asks(rest)), levels_of(ev.asks@));
    }
}

/// Whether a series of updates leads a syncer and its book through phases and books, each applied.
pub open spec fn are_applied(
    phases: Seq<Phase>,
    books: Seq<OrderBook>,
    evs: Seq<DepthUpdate>,
) -> bool {
    &&& phases.len() == evs.len() + 1
    &&& books.len() == evs.len() + 1
    &&& forall|i: int| 0 <= i < books.len() ==> (#[trigger] books[i]).wf()
    &&& forall|i: int|
        0 <= i < evs.len() ==> is_updated(
            phases[i],
            phases[i + 1],
            books[i],
            books[i + 1],
            #[trigger] evs[i],
            Ok::<Outcome, SyncError>(Outcome::Applied),
        )
}

/// After a series of updates that are all applied, live or not, each side reads at every price as the
/// whole series asks: the last quantity that any of them names there, and what rested there at the
/// start where none does.
pub proof fn law_series_leaves_the_last_mentions(
    phases: Seq<Phase>,
    books: Seq<OrderBook>,
    evs: Seq<DepthUpdate>,
    k: int,
)
    requires
        are_applied(phases, books, evs),
    ensures
        reads_as_changed(books.first().bids(), books.last().bids(), all_bids(evs), k),
        reads_as_changed(books.first().asks(), books.last().asks(), all_asks(evs), k),
{
    lemma_series_maps(phases, books, evs);
    assert(books[0] == books.first() && books[books.len() - 1] == books.last());
    lemma_reads_as_changed(books.first().bids(), books.last().bids(), all_bids(evs), k);
    lemma_reads_as_changed(books.first().asks(), books.last().asks(), all_asks(evs), k);
}

proof fn lemma_series_maps(phases: Seq<Phase>, books: Seq<OrderBook>, evs: Seq<DepthUpdate>)
    requires
        are_applied(phases, books, evs),
    ensures
        all_readable(all_bids(evs)),
        all_readable(all_asks(evs)),
        level_map(books.last().bids()) == all_changed(
            level_map(books.first().bids()),
            levels_of(all_bids(evs)),
        ),
        level_map(books.last().asks()) == all_changed(
            level_map(books.first().asks()),
            levels_of(all_asks(evs)),
        ),
    decreases evs.len(),
{
    if evs.len() == 0 {
        assert(levels_of(all_bids(evs)) =~= Seq::empty());
        assert(levels_of(all_asks(evs)) =~= Seq::empty());
    } else {
        let n = evs.len() - 1;
        let (p, b, e) = (phases.drop_last(), books.drop_last(), evs.drop_last());
        assert(are_applied(p, b, e)) by {
            assert forall|i: int| 0 <= i < b.len() implies (#[trigger] b[i]).wf() by {
                assert(b[i] == books[i]);
            }
            assert forall|i: int| 0 <= i < e.len() implies is_updated(
                p[i],
                p[i + 1],
                b[i],
                b[i + 1],
                #[trigger] e[i],
                Ok::<Outcome, SyncError>(Outcome::Applied),
            ) by {
                assert(e[i] == evs[i]);
            }
        }
        lemma_series_maps(p, b, e);
        let ev = evs[n];
        assert(is_updated(
            phases[n],
            phases[n + 1],
            books[n],
            books[n + 1],
            ev,
            Ok::<Outcome, SyncError>(Outcome::Applied),
        ));
        lemma_levels_of_parts(all_bids(e), ev.bids@);
        lemma_levels_of_parts(all_asks(e), ev.asks@);
        let (x, y) = (level_map(books.first().bids()), level_map(books.first().asks()));
        law_changes_add_up(x, levels_of(all_bids(e)), levels_of(ev.bids@));
        law_changes_add_up(y, levels_of(all_asks(e)), levels_of(ev.asks@));
    }
}

/// A series of updates that are all applied, as the rules replay it, leaves what the series as a
/// whole asks: the last quantity that any of them names at a price.
pub proof fn law_replay_leaves_the_last_mentions(
    from: Synced,
    evs: Seq<DepthUpdate>,
    book: OrderBook,
    book_after: OrderBook,
    k: int,
)
    requires
        replayed(from, evs).applied == evs.len(),
        book.wf(),
        book_after.wf(),
        level_map(book.bids()) == from.bids,
        level_map(book.asks()) == from.asks,
        level_map(book_after.bids()) == replayed(from, evs).at.bids,
        level_map(book_after.asks()) == replayed(from, evs).at.asks,
    ensures
        reads_as_changed(book.bids(), book_after.bids(), all_bids(evs), k),
        reads_as_changed(book.asks(), book_after.asks(), all_asks(evs), k),
{
    lemma_series_changes(from, evs);
    lemma_reads_as_changed(book.bids(), book_after.bids(), all_bids(evs), k);
    lemma_reads_as_changed(book.asks(), book_after.asks(), all_asks(evs), k);
}

/// The updates that a phase keeps for a snapshot.
pub open spec fn waiting_updates(phase: Phase) -> Seq<DepthUpdate> {
    match phase {
        Phase::Buffering(buf) => buf@,
        _ => Seq::empty(),
    }
}

/// A snapshot that no update was kept for makes the book its own: each side reads at every price as
/// the snapshot lists it, whatever was there before, and everything up to its number is in.
pub proof fn law_snapshot_is_the_book(
    before: Phase,
    after: Phase,
    book: OrderBook,
    book_after: OrderBook,
    snap: Snapshot,
    r: Result<usize, SyncError>,
    k: int,
)
    requires
        is_installed(before, after, book, book_after, snap, r),
        waiting_updates(before).len() == 0,
        reads_through(snap.bids@),
        reads_through(snap.asks@),
        book_after.wf(),
    ensures
        r == Ok::<usize, SyncError>(0),
        after == (Phase::AwaitFirst { last_update_id: snap.last_update_id }),
        reads_as_listed(book_after.bids(), snap.bids@, k),
        reads_as_listed(book_after.asks(), snap.asks@, k),
{
    law_levels_are_read_one_by_one(snap.bids@);
    law_levels_are_read_one_by_one(snap.asks@);
    assert(replayed(snapshot_book(snap), waiting_updates(before)).at == snapshot_book(snap));
    lemma_reads_as_listed(book_after.bids(), snap.bids@, k);
    lemma_reads_as_listed(book_after.asks(), snap.asks@, k);
}

/// A snapshot with a level that cannot be read leaves the book as it is, drops the updates that were
/// kept for it, and reports the level.
pub proof fn law_unreadable_snapshot_is_refused(
    before: Phase,
    after: Phase,
    book: OrderBook,
    book_after: OrderBook,
    snap: Snapshot,
    r: Result<usize, SyncError>,
)
    requires
        is_installed(before, after, book, book_after, snap, r),
    ensures
        !(reads_through(snap.bids@) && reads_through(snap.asks@)) ==> book_after == book && (
        after matches Phase::Buffering(buf) && buf@.len() == 0) && (r matches Err(
            SyncError::BadLevel(_),
        )),
        reads_through(snap.bids@) && reads_through(snap.asks@) ==> !(after is Buffering),
{
    law_levels_are_read_one_by_one(snap.bids@);
    law_levels_are_read_one_by_one(snap.asks@);
}

/// Whether updates lead one after the other through phases and books, with the given results.
pub open spec fn are_taken(
    phases: Seq<Phase>,
    books: Seq<OrderBook>,
    evs: Seq<DepthUpdate>,
    results: Seq<Result<Outcome, SyncError>>,
) -> bool {
    &&& phases.len() == evs.len() + 1
    &&& books.len() == evs.len() + 1
    &&& results.len() == evs.len()
    &&& forall|i: int| 0 <= i < books.len() ==> (#[trigger] books[i]).wf()
    &&& forall|i: int|
        0 <= i < evs.len() ==> is_updated(
            phases[i],
            phases[i + 1],
            books[i],
            books[i + 1],
            #[trigger] evs[i],
            results[i],
        )
}

/// How many updates were applied.
pub open spec fn count_applied(results: Seq<Result<Outcome, SyncError>>) -> int
    decreases results.len(),
{
    if results.len() == 0 {
        0
    } else if results.last() == Ok::<Outcome, SyncError>(Outcome::Applied) {
        count_applied(results.drop_last()) + 1
    } else {
        count_applied(results.drop_last())
    }
}

/// Taking updates one by one keeps step with replaying them, as long as none is refused.
proof fn lemma_taken_is_replayed(
    from: Synced,
    phases: Seq<Phase>,
    books: Seq<OrderBook>,
    evs: Seq<DepthUpdate>,
    results: Seq<Result<Outcome, SyncError>>,
)
    requires
        are_taken(phases, books, evs, results),
        is_synced(phases.first(), books.first(), from),
        forall|i: int| 0 <= i < results.len() ==> (#[trigger] results[i]) is Ok,
    ensures
        replayed(from, evs).refused is None,
        is_synced(phases.last(), books.last(), replayed(from, evs).at),
        replayed(from, evs).applied == count_applied(results),
    decreases evs.len(),
{
    if evs.len() > 0 {
        let n = evs.len() - 1;
        let (p, b, e, q) = (
            phases.drop_last(),
            books.drop_last(),
            evs.drop_last(),
            results.drop_last(),
        );
        lemma_taken_before(phases, books, evs, results);
        assert forall|i: int| 0 <= i < q.len() implies (#[trigger] q[i]) is Ok by {
            assert(q[i] == results[i]);
        }
        lemma_taken_is_replayed(from, p, b, e, q);
        assert(is_updated(phases[n], phases[n + 1], books[n], books[n + 1], evs[n], results[n]));
        assert(results[n] is Ok);
    }
}

proof fn lemma_taken_before(
    phases: Seq<Phase>,
    books: Seq<OrderBook>,
    evs: Seq<DepthUpdate>,
    results: Seq<Result<Outcome, SyncError>>,
)
    requires
        are_taken(phases, books, evs, results),
        evs.len() > 0,
    ensures
        are_taken(
            phases.drop_last(),
            books.drop_last(),
            evs.drop_last(),
            results.drop_last(),
        ),
{
    let (p, b, e, q) = (
        phases.drop_last(),
        books.drop_last(),
        evs.drop_last(),
        results.drop_last(),
    );
    assert forall|i: int| 0 <= i < b.len() implies (#[trigger] b[i]).wf() by {
        assert(b[i] == books[i]);
    }
    assert forall|i: int| 0 <= i < e.len() implies is_updated(
        p[i],
        p[i + 1],
        b[i],
        b[i + 1],
        #[trigger] e[i],
        q[i],
    ) by {
        assert(e[i] == evs[i]);
    }
}

/// Updates that were kept for a snapshot have the effect that they would have had one by one after
/// it. Where none of them would have been refused, the snapshot with all of them leaves the same
/// levels, is in sync as far, and reports how many would have been applied.
pub proof fn law_kept_updates_follow_the_snapshot(
    before: Phase,
    after: Phase,
    book: OrderBook,
    book_after: OrderBook,
    snap: Snapshot,
    r: Result<usize, SyncError>,
    empty: Phase,
    phases: Seq<Phase>,
    books: Seq<OrderBook>,
    results: Seq<Result<Outcome, SyncError>>,
)
    requires
        is_installed(before, after, book, book_after, snap, r),
        book_after.wf(),
        waiting_updates(empty).len() == 0,
        phases.len() > 0,
        books.len() > 0,
        is_installed(empty, phases.first(), book, books.first(), snap, Ok::<usize, SyncError>(0)),
        are_taken(phases, books, waiting_updates(before), results),
        forall|i: int| 0 <= i < results.len() ==> (#[trigger] results[i]) is Ok,
    ensures
        r matches Ok(applied) && applied == count_applied(results),
        after == phases.last(),
        book_after.bids() == books.last().bids(),
        book_after.asks() == books.last().asks(),
{
    let from = snapshot_book(snap);
    let evs = waiting_updates(before);
    assert(evs =~= kept(before));
    assert(kept(empty).len() == 0);
    assert(is_synced(phases.first(), books.first(), from));
    lemma_taken_is_replayed(from, phases, books, evs, results);
    assert(books[books.len() - 1] == books.last());
    law_ladder_is_its_map(book_after.bids(), books.last().bids());
    law_ladder_is_its_map(book_after.asks(), books.last().asks());
}

/// Where one of the updates that were kept for a snapshot would have been refused after it, the
/// snapshot ends at the first such update: the book and the syncer are as the updates before it leave
/// them, and the refusal is that update's.
pub proof fn law_refused_update_ends_the_snapshot(
    before: Phase,
    after: Phase,
    book: OrderBook,
    book_after: OrderBook,
    snap: Snapshot,
    r: Result<usize, SyncError>,
    empty: Phase,
    phases: Seq<Phase>,
    books: Seq<OrderBook>,
    results: Seq<Result<Outcome, SyncError>>,
    last: Result<Outcome, SyncError>,
)
    requires
        is_installed(before, after, book, book_after, snap, r),
        book_after.wf(),
        waiting_updates(empty).len() == 0,
        phases.len() > 0,
        books.len() > 0,
        is_installed(empty, phases.first(), book, books.first(), snap, Ok::<usize, SyncError>(0)),
        results.len() < waiting_updates(before).len(),
        are_taken(
            phases,
            books,
            waiting_updates(before).take(results.len() as int),
            results,
        ),
        forall|i: int| 0 <= i < results.len() ==> (#[trigger] results[i]) is Ok,
        is_updated(
            phases.last(),
            phases.last(),
            books.last(),
            books.last(),
            waiting_updates(before)[results.len() as int],
            last,
        ),
        last is Err,
    ensures
        r is Err,
        after == phases.last(),
        book_after.bids() == books.last().bids(),
        book_after.asks() == books.last().asks(),
        last->Err_0 is Gap <==> r->Err_0 is Gap,
        last matches Err(SyncError::Gap(g)) ==> (r matches Err(SyncError::Gap(h)) && h.expected
            == g.expected && h.got == g.got),
        last->Err_0 is BadLevel <==> r->Err_0 is BadLevel,
{
    let from = snapshot_book(snap);
    let evs = waiting_updates(before);
    let n = results.len() as int;
    assert(evs =~= kept(before));
    assert(kept(empty).len() == 0);
    assert(is_synced(phases.first(), books.first(), from));
    lemma_taken_is_replayed(from, phases, books, evs.take(n), results);
    assert(evs.take(n + 1).drop_last() =~= evs.take(n));
    assert(evs.take(n + 1).last() == evs[n]);
    assert(replayed(from, evs.take(n + 1)).refused is Some);
    lemma_refused_stays(from, evs, n + 1);
    assert(books[books.len() - 1] == books.last());
    law_ladder_is_its_map(book_after.bids(), books.last().bids());
    law_ladder_is_its_map(book_after.asks(), books.last().asks());
}

} // verus!
