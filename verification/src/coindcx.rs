//! A session with a venue that speaks Engine.IO and sends whole books or changes to them.

use crate::binance::tells_unreadable;
use crate::book::{
    all_changed, all_readable, law_ladder_is_its_map, level_map, levels_of, listed, parse_levels,
    LevelError, OrderBook,
};
use crate::decimal::whole_digits;
use crate::session::{check_freshness, freshened, freshness, since, Freshness};
use crate::state::{touched, with_status, Backoff, FeedState, FeedStats, FeedStatus};
use crate::text::number_text;
use vstd::prelude::*;

verus! {

/// After how many milliseconds without depth updates a connection is given up.
pub const DEAD_AFTER_MS: u64 = 20000;

/// How many milliseconds beyond its promise a ping may stay out.
pub const PING_GRACE_MS: u64 = 5000;

/// What a packet of a session asks for.
#[derive(Debug)]
pub enum Packet {
    /// To be answered with a pong.
    Ping,
    /// The connection is closed.
    Close,
    /// The server has left the namespace.
    Disconnect,
    /// An event, whose text follows the packet's type.
    Event(String),
    /// Nothing.
    Other,
}

/// Whether a text begins with two characters.
pub open spec fn begins_with(text: Seq<char>, a: char, b: char) -> bool {
    text.len() >= 2 && text[0] == a && text[1] == b
}

/// Whether `p` is what a text stands for.
pub open spec fn is_packet(text: Seq<char>, p: Packet) -> bool {
    if text == seq!['2'] {
        p is Ping
    } else if text == seq!['1'] {
        p is Close
    } else if begins_with(text, '4', '1') {
        p is Disconnect
    } else if begins_with(text, '4', '2') {
        p matches Packet::Event(body) && body@ == text.skip(2)
    } else {
        p is Other
    }
}

/// What a text stands for in a session.
pub fn read_packet(text: &str) -> (r: Packet)
    ensures
        is_packet(text@, r),
{
    let n: usize = text.unicode_len();
    if n == 0 {
        return Packet::Other;
    }
    let a: char = text.get_char(0);
    if n == 1 {
        assert(text@ =~= seq![a]);
        assert(seq![a][0] == a && seq!['1'][0] == '1' && seq!['2'][0] == '2');
        if a == '2' {
            return Packet::Ping;
        }
        if a == '1' {
            return Packet::Close;
        }
        return Packet::Other;
    }
    assert(text@ != seq!['1'] && text@ != seq!['2']) by {
        assert(seq!['1'].len() == 1 && seq!['2'].len() == 1);
    }
    let b: char = text.get_char(1);
    if a == '4' && b == '1' {
        Packet::Disconnect
    } else if a == '4' && b == '2' {
        let body = String::from_str(text.substring_char(2, n));
        assert(body@ =~= text@.skip(2));
        Packet::Event(body)
    } else {
        Packet::Other
    }
}

/// The text of an open packet, which follows the packet's type; `None` for another packet.
pub fn read_open(text: &str) -> (r: Option<String>)
    ensures
        r is Some <==> text@.len() > 0 && text@[0] == '0',
        r matches Some(body) ==> body@ == text@.skip(1),
{
    let n: usize = text.unicode_len();
    if n > 0 && text.get_char(0) == '0' {
        let body = String::from_str(text.substring_char(1, n));
        assert(body@ =~= text@.skip(1));
        Some(body)
    } else {
        None
    }
}

/// Whether a text says that the server has let the client into its namespace. A text that is no
/// answer says nothing yet; one that turns the client down ends the session.
pub fn read_namespace_reply(text: &str) -> (r: Result<bool, SessionError>)
    ensures
        match r {
            Ok(joined) => joined == begins_with(text@, '4', '0') && !begins_with(text@, '4', '4'),
            Err(e) => begins_with(text@, '4', '4') && (e matches SessionError::Rejected(reply)
                && reply@ == text@),
        },
{
    if text.unicode_len() < 2 || text.get_char(0) != '4' {
        return Ok(false);
    }
    let b: char = text.get_char(1);
    if b == '0' {
        Ok(true)
    } else if b == '4' {
        Err(SessionError::Rejected(String::from_str(text)))
    } else {
        Ok(false)
    }
}

/// Whether an event is a depth update. The name that its envelope gives it counts more than the name
/// that it was sent under.
pub fn is_depth_event(name: &String, inner: &Option<String>) -> (r: bool)
    ensures
        r == match *inner {
            Some(inner) => inner@ == "depth-update"@,
            None => name@ == "depth-update"@,
        },
{
    let wanted = String::from_str("depth-update");
    match inner {
        Some(inner) => *inner == wanted,
        None => *name == wanted,
    }
}

/// The levels of a depth update. It replaces the book unless it says that it does not.
#[derive(Debug)]
pub struct DepthPayload {
    pub event_time: Option<u64>,
    pub bids: Vec<(String, String)>,
    pub asks: Vec<(String, String)>,
    pub replace: Option<bool>,
}

/// Why a session ends.
#[derive(Debug)]
pub enum SessionError {
    /// The server has turned down the request to join its namespace.
    Rejected(String),
    /// The server has left the namespace.
    Disconnected,
    /// A level cannot be read.
    BadLevel(LevelError),
    /// The book that the venue sent is crossed.
    Crossed,
    /// No frames have come for so many milliseconds.
    NoFrames(u64),
    /// No depth updates have come.
    NoDepth,
}

impl SessionError {
    /// The error as text.
    pub open spec fn text(self) -> Seq<char> {
        match self {
            SessionError::Rejected(reply) => "namespace rejected: "@ + reply@,
            SessionError::Disconnected => "namespace disconnected by server"@,
            SessionError::BadLevel(e) => e.text(),
            SessionError::Crossed => "crossed book received from venue"@,
            SessionError::NoFrames(ms) => "no frames (not even Engine.IO ping) for "@
                + whole_digits(ms as int) + " ms"@,
            SessionError::NoDepth => "no depth updates for 20s; forcing reconnect"@,
        }
    }

    /// The error as text.
    pub fn message(&self) -> (r: String)
        ensures
            r@ == self.text(),
    {
        match self {
            SessionError::Rejected(reply) => {
                let mut r = String::from_str("namespace rejected: ");
                r.append(reply.as_str());
                r
            },
            SessionError::Disconnected => String::from_str("namespace disconnected by server"),
            SessionError::BadLevel(e) => e.message(),
            SessionError::Crossed => String::from_str("crossed book received from venue"),
            SessionError::NoFrames(ms) => {
                let mut r = String::from_str("no frames (not even Engine.IO ping) for ");
                r.append(number_text(*ms).as_str());
                r.append(" ms");
                r
            },
            SessionError::NoDepth => String::from_str(
                "no depth updates for 20s; forcing reconnect",
            ),
        }
    }
}

/// What a session remembers.
#[derive(Debug)]
pub struct CoindcxSession {
    /// A depth update has come.
    pub got_ws_depth: bool,
    /// After how many milliseconds without frames the connection is dead.
    pub ping_dead_ms: u64,
    /// When the last frame came.
    pub last_frame: u64,
    /// When the last depth update came.
    pub last_depth: u64,
}

/// What became of a depth update.
#[derive(Clone, Copy, Debug, PartialEq, Eq, Structural)]
pub enum DepthNews {
    /// It was applied, to a feed that was live.
    Applied,
    /// It was applied, and the feed is live. The levels of each side.
    WentLive { bids: usize, asks: usize },
}

/// What became of a book that was fetched to begin with.
#[derive(Debug)]
pub enum SeedReport {
    /// A depth update had come already.
    Late,
    /// It is in. The levels of each side.
    Seeded { bids: usize, asks: usize },
    /// A level cannot be read.
    Unreadable(LevelError),
}

/// Whether a depth update replaces the book.
pub open spec fn replaces(p: DepthPayload) -> bool {
    match p.replace {
        Some(b) => b,
        None => true,
    }
}

/// Whether a book is the one that a readable depth update makes of another.
pub open spec fn is_depth_of(before: OrderBook, after: OrderBook, p: DepthPayload) -> bool {
    let (bids, asks) = (levels_of(p.bids@), levels_of(p.asks@));
    if replaces(p) {
        &&& level_map(after.bids()) == listed(bids)
        &&& level_map(after.asks()) == listed(asks)
    } else {
        &&& level_map(after.bids()) == all_changed(level_map(before.bids()), bids)
        &&& level_map(after.asks()) == all_changed(level_map(before.asks()), asks)
    }
}

/// A feed that a depth update has changed, with the book that it then has.
pub open spec fn depth_shown(
    st: FeedState,
    book: OrderBook,
    p: DepthPayload,
    local: u64,
) -> FeedState {
    FeedState {
        book,
        stats: FeedStats { messages: (st.stats.messages + 1) as u64, ..st.stats },
        last_update_ms: p.event_time,
        last_local_ms: Some(local),
        ..st
    }
}

/// What a depth update does to a feed and the waits. One that cannot be read does nothing. One that
/// crosses the book is taken in and ends the session.
pub open spec fn is_depth_taken(
    st: FeedState,
    after: FeedState,
    waits: Backoff,
    waits_after: Backoff,
    p: DepthPayload,
    local: u64,
    r: Result<DepthNews, SessionError>,
) -> bool {
    if !all_readable(p.bids@) || !all_readable(p.asks@) {
        &&& r matches Err(SessionError::BadLevel(e)) && tells_unreadable(e, p.bids@, p.asks@)
        &&& after == st
        &&& waits_after == waits
    } else {
        let shown = depth_shown(st, after.book, p, local);
        &&& is_depth_of(st.book, after.book, p)
        &&& if after.book.crossed() {
            &&& r == Err::<DepthNews, SessionError>(SessionError::Crossed)
            &&& after == shown
            &&& waits_after == waits
        } else if st.status == FeedStatus::Live {
            &&& r == Ok::<DepthNews, SessionError>(DepthNews::Applied)
            &&& after == touched(shown)
            &&& waits_after == waits
        } else {
            &&& r matches Ok(DepthNews::WentLive { bids, asks }) && bids == after.book.bids().len()
                && asks == after.book.asks().len()
            &&& after == with_status(shown, FeedStatus::Live)
            &&& waits_after.cur() == waits.base()
            &&& waits_after.base() == waits.base()
            &&& waits_after.max() == waits.max()
        }
    }
}

/// What a fetched book does to a feed.
pub open spec fn is_seed_taken(
    late: bool,
    st: FeedState,
    after: FeedState,
    bids: Seq<(String, String)>,
    asks: Seq<(String, String)>,
    local: u64,
    r: SeedReport,
) -> bool {
    if late {
        r is Late && after == st
    } else if !all_readable(bids) || !all_readable(asks) {
        &&& r matches SeedReport::Unreadable(e) && tells_unreadable(e, bids, asks)
        &&& after == st
    } else {
        &&& r matches SeedReport::Seeded { bids: b, asks: a } && b == after.book.bids().len() && a
            == after.book.asks().len()
        &&& level_map(after.book.bids()) == listed(levels_of(bids))
        &&& level_map(after.book.asks()) == listed(levels_of(asks))
        &&& after == touched(
            FeedState { book: after.book, last_local_ms: Some(local), ..st },
        )
    }
}

impl CoindcxSession {
    /// A session whose server promises a ping every `ping_interval` milliseconds and waits
    /// `ping_timeout` for the answer.
    pub fn new(ping_interval: u64, ping_timeout: u64, now: u64) -> (r: CoindcxSession)
        requires
            ping_interval + ping_timeout + PING_GRACE_MS <= u64::MAX,
        ensures
            !r.got_ws_depth,
            r.ping_dead_ms == ping_interval + ping_timeout + PING_GRACE_MS,
            r.last_frame == now,
            r.last_depth == now,
    {
        CoindcxSession {
            got_ws_depth: false,
            ping_dead_ms: ping_interval + ping_timeout + PING_GRACE_MS,
            last_frame: now,
            last_depth: now,
        }
    }

    /// A frame has come.
    pub fn on_frame(&mut self, now: u64)
        ensures
            *final(self) == (CoindcxSession { last_frame: now, ..*old(self) }),
    {
        self.last_frame = now;
    }

    /// A depth update has come, at `now`. What it changes is dated `local`.
    pub fn on_depth(
        &mut self,
        p: &DepthPayload,
        st: &mut FeedState,
        backoff: &mut Backoff,
        now: u64,
        local: u64,
    ) -> (r: Result<DepthNews, SessionError>)
        requires
            old(st).stats.messages < u64::MAX,
        ensures
            is_depth_taken(*old(st), *final(st), *old(backoff), *final(backoff), *p, local, r),
            *final(self) == if all_readable(p.bids@) && all_readable(p.asks@) {
                CoindcxSession { got_ws_depth: true, last_depth: now, ..*old(self) }
            } else {
                *old(self)
            },
    {
        let bids = match parse_levels(p.bids.as_slice()) {
            Ok(bids) => bids,
            Err(e) => {
                return Err(SessionError::BadLevel(e));
            },
        };
        let asks = match parse_levels(p.asks.as_slice()) {
            Ok(asks) => asks,
            Err(e) => {
                return Err(SessionError::BadLevel(e));
            },
        };
        self.last_depth = now;
        self.got_ws_depth = true;
        st.stats.messages = st.stats.messages + 1;
        let replace = match p.replace {
            Some(b) => b,
            None => true,
        };
        if replace {
            st.book.replace(bids, asks);
        } else {
            st.book.apply_delta(bids.as_slice(), asks.as_slice());
        }
        st.last_update_ms = p.event_time;
        st.last_local_ms = Some(local);
        if st.book.is_crossed() {
            return Err(SessionError::Crossed);
        }
        if st.status != FeedStatus::Live {
            st.set_status(FeedStatus::Live);
            backoff.reset();
            let (bids, asks): (usize, usize) = st.book.depth();
            Ok(DepthNews::WentLive { bids, asks })
        } else {
            st.touch();
            Ok(DepthNews::Applied)
        }
    }

    /// A book that was fetched to begin with has come. What it changes is dated `local`.
    pub fn on_seed(
        &self,
        bids: &[(String, String)],
        asks: &[(String, String)],
        st: &mut FeedState,
        local: u64,
    ) -> (r: SeedReport)
        ensures
            is_seed_taken(self.got_ws_depth, *old(st), *final(st), bids@, asks@, local, r),
    {
        if self.got_ws_depth {
            return SeedReport::Late;
        }
        let bids = match parse_levels(bids) {
            Ok(bids) => bids,
            Err(e) => {
                return SeedReport::Unreadable(e);
            },
        };
        let asks = match parse_levels(asks) {
            Ok(asks) => asks,
            Err(e) => {
                return SeedReport::Unreadable(e);
            },
        };
        st.book.replace(bids, asks);
        st.last_local_ms = Some(local);
        st.touch();
        let (bids, asks): (usize, usize) = st.book.depth();
        SeedReport::Seeded { bids, asks }
    }

    /// A second has passed. A connection without frames, or without depth updates for too long, is
    /// given up, and then the feed is left as it is; otherwise its freshness is looked at.
    pub fn on_tick(&self, st: &mut FeedState, now: u64) -> (r: Result<Freshness, SessionError>)
        ensures
            ({
                let since_depth = since(now, self.last_depth);
                if since(now, self.last_frame) > self.ping_dead_ms {
                    &&& r == Err::<Freshness, SessionError>(
                        SessionError::NoFrames(self.ping_dead_ms),
                    )
                    &&& *final(st) == *old(st)
                } else if since_depth > DEAD_AFTER_MS {
                    &&& r == Err::<Freshness, SessionError>(SessionError::NoDepth)
                    &&& *final(st) == *old(st)
                } else {
                    &&& r == Ok::<Freshness, SessionError>(freshness(old(st).status, since_depth))
                    &&& *final(st) == freshened(*old(st), since_depth)
                }
            }),
    {
        if now.saturating_sub(self.last_frame) > self.ping_dead_ms {
            return Err(SessionError::NoFrames(self.ping_dead_ms));
        }
        let since_depth: u64 = now.saturating_sub(self.last_depth);
        if since_depth > DEAD_AFTER_MS {
            return Err(SessionError::NoDepth);
        }
        Ok(check_freshness(st, since_depth))
    }
}

/// A whole book leaves nothing of the book before it: two feeds that take the same one in have the
/// same levels.
pub proof fn law_whole_book_forgets(
    before1: OrderBook,
    before2: OrderBook,
    after1: OrderBook,
    after2: OrderBook,
    p: DepthPayload,
)
    requires
        replaces(p),
        after1.wf(),
        after2.wf(),
        is_depth_of(before1, after1, p),
        is_depth_of(before2, after2, p),
    ensures
        after1.bids() == after2.bids(),
        after1.asks() == after2.asks(),
{
    law_ladder_is_its_map(after1.bids(), after2.bids());
    law_ladder_is_its_map(after1.asks(), after2.asks());
}

/// A live feed whose depth updates go on has an uncrossed book: a crossed one ends the session.
pub proof fn law_crossed_book_ends_the_session(
    st: FeedState,
    after: FeedState,
    waits: Backoff,
    waits_after: Backoff,
    p: DepthPayload,
    local: u64,
    r: Result<DepthNews, SessionError>,
)
    requires
        is_depth_taken(st, after, waits, waits_after, p, local, r),
    ensures
        r is Ok ==> !after.book.crossed() && after.status == FeedStatus::Live && after.version
            != st.version,
        r matches Err(SessionError::Crossed) ==> after.book.crossed(),
        r matches Err(SessionError::BadLevel(_)) ==> after == st,
        r matches Err(e) ==> e is Crossed || e is BadLevel,
{
}

} // verus!
