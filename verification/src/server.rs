//! What the server tells its clients, and what it takes from them.

use crate::book::{Level, OrderBook};
use crate::decimal::{parsed, short_text, Decimal};
use crate::execution::{OrderType, Side, Terms};
use crate::matching::{is_placed, placement, MatchResult, TradingState};
use crate::state::{FeedState, FeedStats, FeedStatus};
use vstd::prelude::*;

verus! {

/// After how many milliseconds a book is sent again though nothing has changed.
pub const RESEND_AFTER_MS: u64 = 1000;

/// The symbol of an order that names none.
pub const DEFAULT_SYMBOL: &'static str = "BTCUSDT";

/// A feed as clients see it.
#[derive(Debug)]
pub struct BookMsg {
    pub exchange: &'static str,
    pub symbol: String,
    pub status: FeedStatus,
    pub bids: Vec<(String, String)>,
    pub asks: Vec<(String, String)>,
    pub last_update_ms: Option<u64>,
    pub last_local_ms: Option<u64>,
    pub last_seq: Option<u64>,
    pub stats: FeedStats,
    pub version: u64,
    pub server_ms: u64,
}

/// Whether texts show levels, one by one.
pub open spec fn levels_show(texts: Seq<(String, String)>, levels: Seq<Level>) -> bool {
    &&& texts.len() == levels.len()
    &&& forall|i: int|
        0 <= i < levels.len() ==> (#[trigger] texts[i]).0@ == short_text(levels[i].0)
            && texts[i].1@ == short_text(levels[i].1)
}

/// Levels as texts.
fn level_texts(levels: &Vec<Level>) -> (r: Vec<(String, String)>)
    ensures
        levels_show(r@, levels@),
{
    let mut r: Vec<(String, String)> = Vec::new();
    for i in 0..levels.len()
        invariant
            levels_show(r@, levels@.take(i as int)),
    {
        let l: Level = levels[i];
        r.push((l.0.to_text(), l.1.to_text()));
    }
    assert(levels@.take(levels.len() as int) =~= levels@);
    r
}

/// A feed as clients see it at `server_ms`: the best `depth` levels of each side, best first.
pub fn book_msg(st: &FeedState, depth: usize, server_ms: u64) -> (r: BookMsg)
    ensures
        r.exchange == st.exchange,
        r.symbol == st.symbol,
        r.status == st.status,
        levels_show(r.bids@, st.book.top_bids(depth as int)),
        levels_show(r.asks@, st.book.top_asks(depth as int)),
        r.last_update_ms == st.last_update_ms,
        r.last_local_ms == st.last_local_ms,
        r.last_seq == st.last_seq,
        r.stats == st.stats,
        r.version == st.version,
        r.server_ms == server_ms,
{
    let (bids, asks) = st.book.top(depth);
    BookMsg {
        exchange: st.exchange,
        symbol: st.symbol.clone(),
        status: st.status,
        bids: level_texts(&bids),
        asks: level_texts(&asks),
        last_update_ms: st.last_update_ms,
        last_local_ms: st.last_local_ms,
        last_seq: st.last_seq,
        stats: st.stats.clone(),
        version: st.version,
        server_ms,
    }
}

/// What a client has been sent of a feed: the version, and when.
#[derive(Clone, Copy, Debug, PartialEq, Eq, Structural)]
pub struct LastSent {
    pub version: u64,
    pub at_ms: u64,
}

impl LastSent {
    /// Nothing has been sent yet.
    pub fn nothing() -> (r: LastSent)
        ensures
            r.version == u64::MAX,
            r.at_ms == 0,
    {
        LastSent { version: u64::MAX, at_ms: 0 }
    }

    /// Whether a book is to be sent: it has changed since, or the last time is too long ago.
    pub open spec fn due(self, version: u64, now: u64) -> bool {
        version != self.version || now - self.at_ms >= RESEND_AFTER_MS
    }

    /// Whether a book is to be sent.
    pub fn is_due(&self, version: u64, now: u64) -> (r: bool)
        ensures
            r == self.due(version, now),
    {
        version != self.version || now.saturating_sub(self.at_ms) >= RESEND_AFTER_MS
    }
}

/// What has been sent is not sent again at once, and every change is sent.
pub proof fn law_changes_are_sent_once(version: u64, other: u64, now: u64, last: LastSent)
    ensures
        !(LastSent { version, at_ms: now }).due(version, now),
        other != version ==> (LastSent { version, at_ms: now }).due(other, now),
        last.version != version ==> last.due(version, now),
{
}

/// An order as a client asks for it.
#[derive(Debug)]
pub struct OrderRequest {
    pub side: Side,
    pub order_type: OrderType,
    pub symbol: Option<String>,
    pub price: Option<String>,
    pub quantity: String,
}

/// An order that can be placed.
#[derive(Debug)]
pub struct OrderTicket {
    pub side: Side,
    pub order_type: OrderType,
    pub symbol: String,
    pub limit_price: Option<Decimal>,
    pub quantity: Decimal,
}

/// Why an order cannot be placed.
#[derive(Clone, Copy, Debug, PartialEq, Eq, Structural)]
pub enum RequestError {
    InvalidQuantity,
    InvalidLimitPrice,
}

impl RequestError {
    /// The error as text.
    pub open spec fn text(self) -> Seq<char> {
        match self {
            RequestError::InvalidQuantity => "invalid quantity"@,
            RequestError::InvalidLimitPrice => "invalid limit price"@,
        }
    }

    /// The error as text.
    pub fn message(&self) -> (r: String)
        ensures
            r@ == self.text(),
    {
        match self {
            RequestError::InvalidQuantity => String::from_str("invalid quantity"),
            RequestError::InvalidLimitPrice => String::from_str("invalid limit price"),
        }
    }
}

/// The positive decimal that a text stands for.
pub open spec fn positive_of(text: Seq<char>) -> Option<Decimal> {
    match parsed(text) {
        Ok(d) => if d.units() > 0 {
            Some(d)
        } else {
            None
        },
        Err(_) => None,
    }
}

/// The positive decimal that a text stands for.
fn read_positive(text: &String) -> (r: Option<Decimal>)
    ensures
        r == positive_of(text@),
{
    match Decimal::parse(text.as_str()) {
        Ok(d) => {
            if Decimal::zero().less(d) {
                Some(d)
            } else {
                None
            }
        },
        Err(_) => None,
    }
}

/// The price text that counts: a market order's does not.
pub open spec fn limit_text(req: OrderRequest) -> Option<String> {
    if req.order_type == OrderType::Limit {
        req.price
    } else {
        None
    }
}

/// What makes a request invalid. The quantity is looked at first. A limit order may come without a
/// price.
pub open spec fn request_error(req: OrderRequest) -> Option<RequestError> {
    if positive_of(req.quantity@) is None {
        Some(RequestError::InvalidQuantity)
    } else if limit_text(req) is Some && positive_of(limit_text(req)->0@) is None {
        Some(RequestError::InvalidLimitPrice)
    } else {
        None
    }
}

/// The symbol of the order that a client asks for.
pub open spec fn wanted_symbol(req: OrderRequest) -> Seq<char> {
    match req.symbol {
        Some(s) => s@,
        None => DEFAULT_SYMBOL@,
    }
}

/// The terms of the order that a valid request asks for.
pub open spec fn wanted_terms(req: OrderRequest) -> Terms {
    Terms {
        side: req.side,
        order_type: req.order_type,
        limit: match limit_text(req) {
            Some(p) => positive_of(p@),
            None => None,
        },
    }
}

/// The quantity that a valid request asks for.
pub open spec fn wanted_quantity(req: OrderRequest) -> Decimal {
    positive_of(req.quantity@)->0
}

/// Reads an order from what a client asks for.
pub fn read_order(req: OrderRequest) -> (r: Result<OrderTicket, RequestError>)
    ensures
        match r {
            Err(e) => request_error(req) == Some(e),
            Ok(t) => {
                &&& request_error(req) is None
                &&& t.symbol@ == wanted_symbol(req)
                &&& t.quantity == wanted_quantity(req)
                &&& (Terms { side: t.side, order_type: t.order_type, limit: t.limit_price })
                    == wanted_terms(req)
            },
        },
{
    let quantity = match read_positive(&req.quantity) {
        Some(q) => q,
        None => {
            return Err(RequestError::InvalidQuantity);
        },
    };
    let mut limit_price: Option<Decimal> = None;
    if req.order_type == OrderType::Limit {
        if let Some(p) = &req.price {
            match read_positive(p) {
                Some(lp) => {
                    limit_price = Some(lp);
                },
                None => {
                    return Err(RequestError::InvalidLimitPrice);
                },
            }
        }
    }
    let symbol = match req.symbol {
        Some(s) => s,
        None => String::from_str(DEFAULT_SYMBOL),
    };
    Ok(OrderTicket { side: req.side, order_type: req.order_type, symbol, limit_price, quantity })
}

/// Places the order that a client asks for; `None` where the arithmetic overflows. A request that is
/// refused, or that overflows, changes nothing.
pub fn take_order(
    account: &mut TradingState,
    req: OrderRequest,
    binance_book: &OrderBook,
    coindcx_book: &OrderBook,
    now_ms: u64,
) -> (r: Result<Option<MatchResult>, RequestError>)
    ensures
        final(account).wf(),
        match r {
            Err(e) => request_error(req) == Some(e) && *final(account) == *old(account),
            Ok(None) => {
                &&& request_error(req) is None
                &&& placement(
                    wanted_terms(req),
                    wanted_symbol(req),
                    wanted_quantity(req),
                    old(account).cash(),
                    old(account).holds(),
                    *binance_book,
                    *coindcx_book,
                ) is None
                &&& *final(account) == *old(account)
            },
            Ok(Some(m)) => {
                &&& request_error(req) is None
                &&& exists|symbol: String|
                    symbol@ == wanted_symbol(req) && #[trigger] is_placed(
                        *old(account),
                        *final(account),
                        m,
                        wanted_terms(req),
                        symbol,
                        wanted_quantity(req),
                        *binance_book,
                        *coindcx_book,
                        now_ms,
                    )
            },
        },
{
    proof {
        use_type_invariant(&*account);
    }
    let t = match read_order(req) {
        Ok(t) => t,
        Err(e) => {
            return Err(e);
        },
    };
    let ghost terms = Terms { side: t.side, order_type: t.order_type, limit: t.limit_price };
    assert(terms == wanted_terms(req));
    let ghost symbol = t.symbol;
    let r = account.try_place_order(
        t.side,
        t.order_type,
        t.symbol,
        t.limit_price,
        t.quantity,
        binance_book,
        coindcx_book,
        now_ms,
    );
    assert(r matches Some(m) ==> is_placed(
        *old(account),
        *account,
        m,
        terms,
        symbol,
        t.quantity,
        *binance_book,
        *coindcx_book,
        now_ms,
    ));
    Ok(r)
}

} // verus!
