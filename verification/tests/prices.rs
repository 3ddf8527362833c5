use orderbook_backend::book::{Level, OrderBook};
use orderbook_backend::decimal::Decimal;
use orderbook_backend::pricing::{
    mid_price, snapshot, spread, spread_bps, try_mid_price, try_snapshot, try_spread,
    try_spread_bps, try_vwap_ask, try_vwap_bid, vwap_ask, vwap_bid,
};

fn d(text: &str) -> Decimal {
    Decimal::parse(text).unwrap()
}

fn levels(raw: &[(&str, &str)]) -> Vec<Level> {
    raw.iter().map(|l| (d(l.0), d(l.1))).collect()
}

fn book(bids: &[(&str, &str)], asks: &[(&str, &str)]) -> OrderBook {
    let mut b = OrderBook::default();
    b.replace(levels(bids), levels(asks));
    b
}

fn ordinary() -> OrderBook {
    book(&[("99", "1"), ("98", "2")], &[("101", "0.5"), ("103", "2")])
}

#[test]
fn the_mean_and_the_spread() {
    let b = ordinary();
    assert_eq!(mid_price(&b), Some(d("100")));
    assert_eq!(spread(&b), Some(d("2")));
    assert_eq!(spread_bps(&b), Some(d("200")));
}

#[test]
fn one_side_has_no_mean() {
    let b = book(&[("99", "1")], &[]);
    assert_eq!(mid_price(&b), None);
    assert_eq!(spread(&b), None);
    assert_eq!(spread_bps(&b), None);
}

#[test]
fn a_mean_of_zero_has_no_basis_points() {
    let b = book(&[("-1", "1")], &[("1", "1")]);
    assert_eq!(mid_price(&b), Some(d("0")));
    assert_eq!(spread(&b), Some(d("2")));
    assert_eq!(spread_bps(&b), None);
}

#[test]
fn average_prices_for_a_quantity() {
    let b = ordinary();
    assert_eq!(vwap_ask(&b, d("1"), 20), Some(d("102")));
    assert_eq!(vwap_bid(&b, d("2"), 20), Some(d("98.5")));
    assert_eq!(vwap_ask(&b, d("0.25"), 20), Some(d("101")));
    assert_eq!(vwap_ask(&b, d("1"), 1), Some(d("101")));
    assert_eq!(vwap_ask(&b, d("1"), 0), None);
    assert_eq!(vwap_ask(&b, d("0"), 20), None);
    assert_eq!(vwap_bid(&book(&[], &[]), d("1"), 20), None);
    assert_eq!(vwap_ask(&b, d("100"), 20), Some(d("102.6")));
}

#[test]
fn a_snapshot_shows_it_all() {
    let s = snapshot("binance", &ordinary(), d("1.0"), 20, 55);
    assert_eq!(s.exchange, "binance");
    assert_eq!(s.mid_price, Some("100".to_string()));
    assert_eq!(s.vwap_ask, Some("102".to_string()));
    assert_eq!(s.vwap_bid, Some("99".to_string()));
    assert_eq!(s.vwap_qty, "1");
    assert_eq!(s.spread, Some("2".to_string()));
    assert_eq!(s.spread_bps, Some("200.00".to_string()));
    assert_eq!(s.best_bid, Some("99".to_string()));
    assert_eq!(s.best_ask, Some("101".to_string()));
    assert_eq!(s.ts_ms, 55);
}

#[test]
fn basis_points_are_cut_to_two_places() {
    let s = try_snapshot("coindcx", &book(&[("299", "1")], &[("301", "1")]), d("1"), 20, 0).unwrap();
    assert_eq!(s.spread_bps, Some("66.66".to_string()));
}

#[test]
fn an_empty_book_shows_no_prices() {
    let s = try_snapshot("coindcx", &book(&[], &[]), d("1"), 20, 1).unwrap();
    assert_eq!(s.mid_price, None);
    assert_eq!(s.vwap_ask, None);
    assert_eq!(s.vwap_bid, None);
    assert_eq!(s.spread, None);
    assert_eq!(s.spread_bps, None);
    assert_eq!(s.best_bid, None);
    assert_eq!(s.best_ask, None);
}

#[test]
fn prices_that_overflow_have_no_snapshot() {
    let huge = "79228162514264337593543950335";
    assert!(try_snapshot("x", &book(&[(huge, "1")], &[(huge, "1")]), d("1"), 20, 1).is_none());
}

#[test]
fn prices_that_overflow_have_no_price() {
    let huge = "79228162514264337593543950335";
    let b = book(&[(huge, "9")], &[(huge, "9")]);
    assert_eq!(try_mid_price(&b), None);
    assert_eq!(try_spread(&b), Some(Some(d("0"))));
    assert_eq!(try_spread_bps(&b), None);
    assert_eq!(try_vwap_ask(&b, d("2"), 5), None);
    assert_eq!(try_vwap_bid(&b, d("2"), 5), None);
    let b = ordinary();
    assert_eq!(try_mid_price(&b), Some(mid_price(&b)));
    assert_eq!(try_spread_bps(&b), Some(spread_bps(&b)));
    assert_eq!(try_vwap_ask(&b, d("1"), 5), Some(vwap_ask(&b, d("1"), 5)));
    assert_eq!(try_vwap_bid(&b, d("1"), 5), Some(vwap_bid(&b, d("1"), 5)));
    assert_eq!(try_spread(&book(&[], &[])), Some(None));
}

#[test]
fn an_average_price_never_improves() {
    let b = book(&[("99", "1"), ("97", "1"), ("90", "2")], &[("100", "1"), ("102", "1"), ("110", "2")]);
    let asks: Vec<Decimal> =
        ["0.5", "1", "2", "4"].iter().map(|q| vwap_ask(&b, d(q), 9).unwrap()).collect();
    assert_eq!(asks, vec![d("100"), d("100"), d("101"), d("105.5")]);
    let bids: Vec<Decimal> =
        ["0.5", "1", "2", "4"].iter().map(|q| vwap_bid(&b, d(q), 9).unwrap()).collect();
    assert_eq!(bids, vec![d("99"), d("99"), d("98"), d("94")]);
    let other = book(&[("1", "1")], &[("100", "1"), ("102", "1"), ("110", "2")]);
    assert_eq!(vwap_ask(&other, d("4"), 9), Some(d("105.5")));
}

#[test]
fn the_mean_lies_between() {
    assert_eq!(mid_price(&book(&[("100", "1")], &[("101", "1")])), Some(d("100.5")));
    assert_eq!(mid_price(&book(&[("0.01", "1")], &[("0.02", "1")])), Some(d("0.015")));
}

#[test]
fn copied_prices_are_the_same() {
    let s = snapshot("binance", &ordinary(), d("1"), 20, 55);
    assert_eq!(format!("{:?}", s.clone()), format!("{:?}", s));
}
