//! Order books of two venues, paper trading against them, and the rules by which their feeds are
//! kept in sync.

pub mod decimal;
pub mod book;
pub mod book_laws;
pub mod position;
pub mod rounding;
pub mod position_laws;
pub mod wants;
pub mod execution;
pub mod offer_laws;
pub mod walk_laws;
pub mod clock;
pub mod ids;
pub mod matching;
pub mod trading_laws;
pub mod call_laws;
pub mod account_laws;
pub mod order_laws;
pub mod recheck_laws;
pub mod pricing;
pub mod price_laws;
pub mod state;
pub mod text;
pub mod binance;
pub mod sync_laws;
pub mod session;
pub mod binance_session;
pub mod feed_laws;
pub mod coindcx;
pub mod depth_laws;
pub mod server;
pub mod request_laws;
