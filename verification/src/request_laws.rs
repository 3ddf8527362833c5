//! What clients can ask for and what they are told.

use crate::binance::{Gap, SyncError};
use crate::binance_session::Silence;
use crate::book::{quoted, Level, LevelError, LevelField};
use crate::coindcx::SessionError;
use crate::decimal::{parsed, short_text, whole_digits, Decimal};
use crate::execution::OrderType;
use crate::rounding::{digits_value, law_digits_stand_for_the_number};
use crate::server::{
    levels_show, request_error, wanted_quantity, wanted_symbol, wanted_terms, LastSent,
    OrderRequest, RequestError,
};
use vstd::prelude::*;

verus! {

/// Whether a text stands for a number above zero.
pub open spec fn reads_positive(text: Seq<char>) -> bool {
    parsed(text) matches Ok(d) && d.units() > 0
}

/// A request is refused for its quantity where that is no number above zero. Otherwise it is refused
/// for its price where it asks for a limit order, names a price, and that is no number above zero. Any
/// other request is taken.
pub proof fn law_bad_requests_are_refused(req: OrderRequest)
    ensures
        request_error(req) == Some(RequestError::InvalidQuantity) <==> !reads_positive(
            req.quantity@,
        ),
        request_error(req) == Some(RequestError::InvalidLimitPrice) <==> reads_positive(
            req.quantity@,
        ) && req.order_type == OrderType::Limit && (req.price matches Some(p) && !reads_positive(
            p@,
        )),
{
}

/// A request that is taken asks for what it says: its side, its type, its quantity, its symbol, and
/// its price where it is a limit order. Without a symbol it asks for BTCUSDT, and a market
/// order has no limit whatever price it names.
pub proof fn law_request_asks_for_what_it_says(req: OrderRequest)
    requires
        request_error(req) is None,
    ensures
        parsed(req.quantity@) == Ok::<Decimal, Seq<char>>(wanted_quantity(req)),
        wanted_quantity(req).units() > 0,
        wanted_terms(req).side == req.side,
        wanted_terms(req).order_type == req.order_type,
        req.order_type == OrderType::Market || req.price is None ==> wanted_terms(req).limit is None,
        req.order_type == OrderType::Limit && req.price is Some ==> wanted_terms(
            req,
        ).limit is Some && parsed((req.price->0)@) == Ok::<Decimal, Seq<char>>(
            wanted_terms(req).limit->0,
        ) && (wanted_terms(req).limit->0).units() > 0,
        req.symbol matches Some(s) ==> wanted_symbol(req) == s@,
        req.symbol is None ==> wanted_symbol(req) == "BTCUSDT"@,
{
}

/// A book is sent where its version is not the one that was sent last, and where that was a second ago
/// or longer. Otherwise it is not.
pub proof fn law_book_is_sent_again_after_a_second(last: LastSent, version: u64, now: u64)
    ensures
        last.due(version, now) <==> version != last.version || now >= last.at_ms + 1000,
{
}

/// Levels are shown one by one, each by the texts of its price and its quantity.
pub proof fn law_levels_are_shown_one_by_one(texts: Seq<(String, String)>, levels: Seq<Level>)
    requires
        levels_show(texts, levels),
    ensures
        texts.len() == levels.len(),
        forall|i: int|
            0 <= i < levels.len() ==> (#[trigger] texts[i]).0@ == short_text(levels[i].0)
                && texts[i].1@ == short_text(levels[i].1),
{
}

/// Whether a text is the digits of a number.
pub open spec fn tells_number(text: Seq<char>, n: int) -> bool {
    &&& text.len() > 0
    &&& digits_value(text) == n
    &&& forall|i: int| 0 <= i < text.len() ==> '0' <= #[trigger] text[i] <= '9'
}

/// A gap tells the number that was expected and the one that came.
pub proof fn law_gap_tells_both_numbers(g: Gap)
    ensures
        exists|a: Seq<char>, b: Seq<char>|
            #[trigger] tells_number(a, g.expected as int) && #[trigger] tells_number(
                b,
                g.got as int,
            ) && g.text() == "sequence gap: expected U="@ + a + " got U="@ + b,
        SyncError::Gap(g).text() == g.text(),
        SyncError::BufferFull.text() == "buffer overflow while waiting for snapshot"@,
{
    law_digits_stand_for_the_number(g.expected as int);
    law_digits_stand_for_the_number(g.got as int);
    assert(tells_number(whole_digits(g.expected as int), g.expected as int));
    assert(tells_number(whole_digits(g.got as int), g.got as int));
}

/// A bad level is told of by the field that cannot be read, its text in quotation marks, and the
/// reason.
pub proof fn law_bad_level_is_told_of(e: LevelError)
    ensures
        e.field == LevelField::Price ==> e.text() == "bad price "@ + quoted(e.raw@) + ": "@
            + e.reason@,
        e.field == LevelField::Qty ==> e.text() == "bad qty "@ + quoted(e.raw@) + ": "@ + e.reason@,
        SyncError::BadLevel(e).text() == e.text(),
        SessionError::BadLevel(e).text() == e.text(),
{
}

/// Why a session ends is told: what the server said, for how long nothing has come, or what is wrong
/// with the book.
pub proof fn law_end_of_a_session_is_told(reply: String, ms: u64)
    ensures
        SessionError::Rejected(reply).text() == "namespace rejected: "@ + reply@,
        SessionError::Disconnected.text() == "namespace disconnected by server"@,
        SessionError::Crossed.text() == "crossed book received from venue"@,
        SessionError::NoDepth.text() == "no depth updates for 20s; forcing reconnect"@,
        exists|a: Seq<char>| #[trigger]
            tells_number(a, ms as int) && SessionError::NoFrames(ms).text()
                == "no frames (not even Engine.IO ping) for "@ + a + " ms"@,
        Silence::NoFrames.text() == "no frames for 30s"@,
        RequestError::InvalidQuantity.text() == "invalid quantity"@,
        RequestError::InvalidLimitPrice.text() == "invalid limit price"@,
{
    law_digits_stand_for_the_number(ms as int);
    assert(tells_number(whole_digits(ms as int), ms as int));
}

} // verus!
