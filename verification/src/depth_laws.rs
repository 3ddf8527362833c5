//! What packets, whole books and changes to a book do, in terms of what they say.

use crate::book_laws::{
    law_first_bad_level_is_reported, law_levels_are_read_one_by_one, lemma_reads_as_changed,
    lemma_reads_as_listed, reads_as_changed, reads_as_listed, tells_first_bad,
};
use crate::coindcx::{
    begins_with, is_depth_taken, is_packet, is_seed_taken, DepthNews, DepthPayload, Packet,
    SeedReport, SessionError,
};
use crate::feed_laws::{follows, same_waits, waits_again};
use crate::state::{Backoff, FeedState, FeedStatus};
use crate::sync_laws::{list_at_fault, reads_through};
use vstd::prelude::*;

verus! {

/// A packet is told by its first characters: a two on its own is a ping, a one on its own closes the
/// connection, four and one leave the namespace, and four and two bring an event, which is the rest of
/// the text. Any other asks for nothing.
pub proof fn law_packets_are_told_apart(text: Seq<char>, p: Packet)
    requires
        is_packet(text, p),
    ensures
        p is Ping <==> text.len() == 1 && text[0] == '2',
        p is Close <==> text.len() == 1 && text[0] == '1',
        p is Disconnect <==> text.len() >= 2 && text[0] == '4' && text[1] == '1',
        p is Event <==> text.len() >= 2 && text[0] == '4' && text[1] == '2',
        p matches Packet::Event(body) ==> text == seq!['4', '2'] + body@,
{
    let (ping, close) = (seq!['2'], seq!['1']);
    assert(ping.len() == 1 && ping[0] == '2' && close.len() == 1 && close[0] == '1');
    if text.len() == 1 {
        if text[0] == '2' {
            assert(text =~= ping);
        }
        if text[0] == '1' {
            assert(text =~= close);
        }
    }
    if let Packet::Event(body) = p {
        assert(text =~= seq!['4', '2'] + body@);
    }
}

/// A text begins with two characters where they are its first two.
pub proof fn law_beginning_of_a_text(text: Seq<char>, a: char, b: char)
    ensures
        begins_with(text, a, b) <==> text.len() >= 2 && text.take(2) == seq![a, b],
{
    if text.len() >= 2 {
        assert(text.take(2)[0] == text[0] && text.take(2)[1] == text[1]);
        assert(seq![a, b][0] == a && seq![a, b][1] == b);
        if text[0] == a && text[1] == b {
            assert(text.take(2) =~= seq![a, b]);
        }
    }
}

/// A depth update that can be read is in the book. One that does not say otherwise is the whole book:
/// each side reads at every price as it lists it. One that says that it does not replace the book
/// changes it: each side reads as the update asks, and as before where it asks nothing.
pub proof fn law_depth_update_is_in_the_book(
    st: FeedState,
    after: FeedState,
    waits: Backoff,
    waits_after: Backoff,
    p: DepthPayload,
    local: u64,
    r: Result<DepthNews, SessionError>,
    k: int,
)
    requires
        is_depth_taken(st, after, waits, waits_after, p, local, r),
        reads_through(p.bids@),
        reads_through(p.asks@),
        st.book.wf(),
        after.book.wf(),
    ensures
        p.replace == Some(false) ==> reads_as_changed(st.book.bids(), after.book.bids(), p.bids@, k)
            && reads_as_changed(st.book.asks(), after.book.asks(), p.asks@, k),
        p.replace != Some(false) ==> reads_as_listed(after.book.bids(), p.bids@, k)
            && reads_as_listed(after.book.asks(), p.asks@, k),
{
    law_levels_are_read_one_by_one(p.bids@);
    law_levels_are_read_one_by_one(p.asks@);
    if p.replace == Some(false) {
        lemma_reads_as_changed(st.book.bids(), after.book.bids(), p.bids@, k);
        lemma_reads_as_changed(st.book.asks(), after.book.asks(), p.asks@, k);
    } else {
        lemma_reads_as_listed(after.book.bids(), p.bids@, k);
        lemma_reads_as_listed(after.book.asks(), p.asks@, k);
    }
}

/// What a depth update changes about a feed besides its book. One that cannot be read changes nothing
/// and reports its first bad level. Any other is counted and dated. It ends the session where it
/// leaves the book crossed; otherwise it is news and the feed is live, and the waits start again where
/// it was not.
pub proof fn law_depth_update_shows_in_the_feed(
    st: FeedState,
    after: FeedState,
    waits: Backoff,
    waits_after: Backoff,
    p: DepthPayload,
    local: u64,
    r: Result<DepthNews, SessionError>,
)
    requires
        is_depth_taken(st, after, waits, waits_after, p, local, r),
        st.stats.messages < u64::MAX,
    ensures
        ({
            let readable = reads_through(p.bids@) && reads_through(p.asks@);
            &&& !readable <==> (r matches Err(SessionError::BadLevel(_)))
            &&& !readable ==> after == st && same_waits(waits, waits_after)
            &&& r matches Err(SessionError::BadLevel(e)) ==> exists|i: int|
                tells_first_bad(e, list_at_fault(p.bids@, p.asks@), i)
            &&& readable ==> {
                &&& after.exchange == st.exchange
                &&& after.symbol == st.symbol
                &&& after.stats.messages == st.stats.messages + 1
                &&& after.stats.reconnects == st.stats.reconnects
                &&& after.stats.resyncs == st.stats.resyncs
                &&& after.stats.gaps == st.stats.gaps
                &&& after.stats.last_error == st.stats.last_error
                &&& after.last_update_ms == p.event_time
                &&& after.last_local_ms == Some(local)
                &&& after.last_seq == st.last_seq
            }
            &&& readable && after.book.crossed() ==> r == Err::<DepthNews, SessionError>(
                SessionError::Crossed,
            ) && after.status == st.status && after.version == st.version && same_waits(
                waits,
                waits_after,
            )
            &&& readable && !after.book.crossed() ==> r is Ok && after.status == FeedStatus::Live
                && follows(st.version, after.version)
            &&& readable && !after.book.crossed() && st.status == FeedStatus::Live ==> r == Ok::<
                DepthNews,
                SessionError,
            >(DepthNews::Applied) && same_waits(waits, waits_after)
            &&& readable && !after.book.crossed() && st.status != FeedStatus::Live ==> (r matches Ok(
                DepthNews::WentLive { bids, asks },
            ) && bids == after.book.bids().len() && asks == after.book.asks().len())
                && waits_again(waits, waits_after)
        }),
{
    law_levels_are_read_one_by_one(p.bids@);
    law_levels_are_read_one_by_one(p.asks@);
    if let Err(SessionError::BadLevel(e)) = r {
        law_first_bad_level_is_reported(e, list_at_fault(p.bids@, p.asks@));
    }
}

/// A book that was fetched to begin with counts only where no depth update has come. It is then the
/// whole book, dated and news, where it can be read; where it cannot, nothing changes and its first
/// bad level is reported.
pub proof fn law_fetched_book_is_the_first(
    late: bool,
    st: FeedState,
    after: FeedState,
    bids: Seq<(String, String)>,
    asks: Seq<(String, String)>,
    local: u64,
    r: SeedReport,
    k: int,
)
    requires
        is_seed_taken(late, st, after, bids, asks, local, r),
        after.book.wf(),
    ensures
        late <==> r is Late,
        late ==> after == st,
        !late && !(reads_through(bids) && reads_through(asks)) ==> after == st && (r matches
            SeedReport::Unreadable(e) && exists|i: int|
            tells_first_bad(e, list_at_fault(bids, asks), i)),
        !late && reads_through(bids) && reads_through(asks) ==> {
            &&& reads_as_listed(after.book.bids(), bids, k)
            &&& reads_as_listed(after.book.asks(), asks, k)
            &&& r matches SeedReport::Seeded { bids: b, asks: a } && b == after.book.bids().len()
                && a == after.book.asks().len()
            &&& after.last_local_ms == Some(local)
            &&& follows(st.version, after.version)
            &&& after.status == st.status
            &&& after.stats == st.stats
            &&& after.exchange == st.exchange
            &&& after.symbol == st.symbol
            &&& after.last_update_ms == st.last_update_ms
            &&& after.last_seq == st.last_seq
        },
{
    law_levels_are_read_one_by_one(bids);
    law_levels_are_read_one_by_one(asks);
    if !late && reads_through(bids) && reads_through(asks) {
        lemma_reads_as_listed(after.book.bids(), bids, k);
        lemma_reads_as_listed(after.book.asks(), asks, k);
    }
    if let SeedReport::Unreadable(e) = r {
        law_first_bad_level_is_reported(e, list_at_fault(bids, asks));
    }
}

} // verus!
