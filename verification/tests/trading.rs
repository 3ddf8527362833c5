use orderbook_backend::book::{Level, OrderBook};
use orderbook_backend::decimal::Decimal;
use orderbook_backend::execution::{OrderType, Side, Venue};
use orderbook_backend::matching::{MatchResult, OrderStatus, TradingState};
use orderbook_backend::position::PositionInner;

fn d(text: &str) -> Decimal {
    Decimal::parse(text).unwrap()
}

fn levels(raw: &[(&str, &str)]) -> Vec<Level> {
    raw.iter().map(|l| (d(l.0), d(l.1))).collect()
}

fn book(bids: &[(&str, &str)], asks: &[(&str, &str)]) -> OrderBook {
    let mut b = OrderBook::default();
    b.replace(levels(bids), levels(asks));
    b
}

fn asks(a: &[(&str, &str)]) -> OrderBook {
    book(&[], a)
}

fn bids(b: &[(&str, &str)]) -> OrderBook {
    book(b, &[])
}

fn account() -> TradingState {
    TradingState::new(d("100000"))
}

fn place(
    ts: &mut TradingState,
    side: Side,
    limit: Option<&str>,
    quantity: &str,
    binance: &OrderBook,
    coindcx: &OrderBook,
) -> MatchResult {
    let order_type = if limit.is_some() { OrderType::Limit } else { OrderType::Market };
    ts.try_place_order(
        side,
        order_type,
        "BTCUSDT".to_string(),
        limit.map(d),
        d(quantity),
        binance,
        coindcx,
        7,
    )
    .unwrap()
}

fn trades(r: &MatchResult) -> Vec<(String, String, String)> {
    r.new_fills.iter().map(|f| (f.price.clone(), f.quantity.clone(), f.exchange.clone())).collect()
}

fn trade(price: &str, quantity: &str, exchange: &str) -> (String, String, String) {
    (price.to_string(), quantity.to_string(), exchange.to_string())
}

#[test]
fn a_market_order_takes_the_best_offers_of_both_venues() {
    let mut ts = account();
    let r = place(
        &mut ts,
        Side::Buy,
        None,
        "2.5",
        &asks(&[("100", "1"), ("102", "2")]),
        &asks(&[("101", "1")]),
    );
    assert_eq!(
        trades(&r),
        vec![
            trade("100", "1", "binance"),
            trade("101", "1", "coindcx"),
            trade("102", "0.5", "binance"),
        ]
    );
    assert_eq!(r.order.status, OrderStatus::Filled);
    assert_eq!(r.order.filled_qty, "2.5");
    assert_eq!(r.order.quantity, "2.5");
    assert_eq!(r.order.avg_fill_price, Some("100.8".to_string()));
    assert_eq!(r.order.price, None);
    assert_eq!(r.order.created_at, 7);
    assert_eq!(r.order.updated_at, 7);
    let p = ts.try_portfolio_snapshot().unwrap();
    assert_eq!(p.cash, "99748");
    assert_eq!(p.positions.len(), 1);
    assert_eq!(p.positions[0].symbol, "BTCUSDT");
    assert_eq!(p.positions[0].quantity, "2.5");
    assert_eq!(p.positions[0].avg_cost, "100.8");
    assert_eq!(p.positions[0].realized_pnl, "0");
    assert_eq!(p.total_realized_pnl, "0");
    assert_eq!(ts.order_history().len(), 1);
    assert_eq!(ts.open_orders().len(), 0);
    assert_eq!(ts.all_fills().len(), 3);
}

#[test]
fn at_equal_prices_the_first_venue_comes_first() {
    let mut ts = account();
    let r = place(&mut ts, Side::Buy, None, "2", &asks(&[("100", "1")]), &asks(&[("100", "5")]));
    assert_eq!(trades(&r), vec![trade("100", "1", "binance"), trade("100", "1", "coindcx")]);
    let r = place(&mut ts, Side::Sell, None, "2", &bids(&[("90", "1")]), &bids(&[("90", "5")]));
    assert_eq!(trades(&r), vec![trade("90", "1", "binance"), trade("90", "1", "coindcx")]);
}

#[test]
fn a_sale_takes_the_highest_bids() {
    let mut ts = account();
    let r = place(
        &mut ts,
        Side::Sell,
        None,
        "3",
        &bids(&[("98", "1"), ("100", "1")]),
        &bids(&[("99", "1")]),
    );
    assert_eq!(
        trades(&r),
        vec![
            trade("100", "1", "binance"),
            trade("99", "1", "coindcx"),
            trade("98", "1", "binance"),
        ]
    );
    let p = ts.try_portfolio_snapshot().unwrap();
    assert_eq!(p.cash, "100297");
    assert_eq!(p.positions[0].quantity, "-3");
    assert_eq!(p.positions[0].avg_cost, "99");
}

#[test]
fn a_limit_order_stops_at_its_limit_and_waits() {
    let mut ts = account();
    let r = place(
        &mut ts,
        Side::Buy,
        Some("101"),
        "3",
        &asks(&[("100", "1"), ("102", "2")]),
        &asks(&[("101", "1")]),
    );
    assert_eq!(trades(&r), vec![trade("100", "1", "binance"), trade("101", "1", "coindcx")]);
    assert_eq!(r.order.status, OrderStatus::PartiallyFilled);
    assert_eq!(r.order.filled_qty, "2");
    assert_eq!(r.order.avg_fill_price, Some("100.5".to_string()));
    assert_eq!(r.order.price, Some("101".to_string()));
    let open = ts.open_orders();
    assert_eq!(open.len(), 1);
    assert_eq!(open[0].id, r.order.id);
    assert_eq!(ts.order_history().len(), 0);
}

#[test]
fn a_limit_sale_stops_below_its_limit() {
    let mut ts = account();
    let r = place(&mut ts, Side::Sell, Some("99"), "3", &bids(&[("100", "1"), ("98", "5")]), &bids(&[]));
    assert_eq!(trades(&r), vec![trade("100", "1", "binance")]);
    assert_eq!(r.order.status, OrderStatus::PartiallyFilled);
}

#[test]
fn an_order_that_nothing_meets_waits_untouched() {
    let mut ts = account();
    let r = place(&mut ts, Side::Buy, Some("99"), "1", &asks(&[("100", "1")]), &asks(&[]));
    assert_eq!(r.order.status, OrderStatus::Open);
    assert_eq!(r.order.avg_fill_price, None);
    assert_eq!(r.order.filled_qty, "0");
    assert!(r.new_fills.is_empty());
    let p = ts.try_portfolio_snapshot().unwrap();
    assert_eq!(p.cash, "100000");
    assert_eq!(p.positions.len(), 0);
}

#[test]
fn a_limit_order_without_a_price_takes_any_price() {
    let mut ts = account();
    let r = ts
        .try_place_order(
            Side::Buy,
            OrderType::Limit,
            "BTCUSDT".to_string(),
            None,
            d("2"),
            &asks(&[("500", "1")]),
            &asks(&[]),
            1,
        )
        .unwrap();
    assert_eq!(trades(&r), vec![trade("500", "1", "binance")]);
    assert_eq!(r.order.status, OrderStatus::PartiallyFilled);
    assert_eq!(ts.open_orders().len(), 1);
}

#[test]
fn a_market_order_never_waits() {
    let mut ts = account();
    let r = place(&mut ts, Side::Buy, None, "1", &asks(&[]), &asks(&[]));
    assert_eq!(r.order.status, OrderStatus::Cancelled);
    let r = place(&mut ts, Side::Buy, None, "5", &asks(&[("100", "1")]), &asks(&[]));
    assert_eq!(r.order.status, OrderStatus::Filled);
    assert_eq!(r.order.filled_qty, "1");
    assert_eq!(ts.open_orders().len(), 0);
    assert_eq!(ts.order_history().len(), 2);
}

#[test]
fn only_fifty_levels_of_a_venue_count() {
    let prices: Vec<String> = (0..60).map(|i| (100 + i).to_string()).collect();
    let raw: Vec<(&str, &str)> = prices.iter().map(|p| (p.as_str(), "1")).collect();
    let mut ts = account();
    let r = place(&mut ts, Side::Buy, None, "60", &asks(&raw), &asks(&[]));
    assert_eq!(r.new_fills.len(), 50);
    assert_eq!(r.order.filled_qty, "50");
}

#[test]
fn waiting_orders_are_tried_again() {
    let mut ts = account();
    let first = place(&mut ts, Side::Buy, Some("101"), "3", &asks(&[("100", "1")]), &asks(&[]));
    let second = place(&mut ts, Side::Buy, Some("50"), "1", &asks(&[]), &asks(&[]));
    let r = ts.try_check_limits(&asks(&[("99", "1")]), &asks(&[]), 8).unwrap();
    assert_eq!(r.len(), 1);
    assert_eq!(r[0].order.id, first.order.id);
    assert_eq!(r[0].order.status, OrderStatus::PartiallyFilled);
    assert_eq!(r[0].order.filled_qty, "2");
    assert_eq!(r[0].order.avg_fill_price, Some("99.5".to_string()));
    assert_eq!(r[0].order.updated_at, 8);
    assert_eq!(r[0].order.created_at, 7);
    let r = ts.try_check_limits(&asks(&[]), &asks(&[("100", "9")]), 9).unwrap();
    assert_eq!(r.len(), 1);
    assert_eq!(r[0].order.status, OrderStatus::Filled);
    assert_eq!(trades(&r[0]), vec![trade("100", "1", "coindcx")]);
    let open = ts.open_orders();
    assert_eq!(open.len(), 1);
    assert_eq!(open[0].id, second.order.id);
    assert_eq!(ts.order_history().len(), 1);
    assert_eq!(ts.try_portfolio_snapshot().unwrap().cash, "99701");
}

#[test]
fn a_recheck_without_trades_changes_nothing() {
    let mut ts = account();
    place(&mut ts, Side::Buy, Some("50"), "1", &asks(&[]), &asks(&[]));
    place(&mut ts, Side::Sell, Some("500"), "1", &asks(&[]), &asks(&[]));
    let before: Vec<String> = ts.open_orders().iter().map(|o| o.id.clone()).collect();
    let b = book(&[("99", "1")], &[("100", "1")]);
    assert!(ts.try_check_limits(&b, &b, 9).unwrap().is_empty());
    let after: Vec<String> = ts.open_orders().iter().map(|o| o.id.clone()).collect();
    assert_eq!(before, after);
    assert_eq!(ts.try_portfolio_snapshot().unwrap().cash, "100000");
}

#[test]
fn every_waiting_order_sees_the_same_books() {
    let mut ts = account();
    place(&mut ts, Side::Buy, Some("100"), "1", &asks(&[]), &asks(&[]));
    place(&mut ts, Side::Buy, Some("100"), "1", &asks(&[]), &asks(&[]));
    let r = ts.try_check_limits(&asks(&[("100", "1")]), &asks(&[]), 9).unwrap();
    assert_eq!(r.len(), 2);
    assert_eq!(ts.open_orders().len(), 0);
}

#[test]
fn an_order_can_be_taken_back_once() {
    let mut ts = account();
    let r = place(&mut ts, Side::Buy, Some("99"), "1", &asks(&[]), &asks(&[]));
    let other = place(&mut ts, Side::Buy, Some("98"), "1", &asks(&[]), &asks(&[]));
    assert!(ts.cancel_order("no such order").is_none());
    let taken = ts.cancel_order_at(&r.order.id, 11).unwrap();
    assert_eq!(taken.id, r.order.id);
    assert_eq!(taken.status, OrderStatus::Cancelled);
    assert_eq!(taken.updated_at, 11);
    assert!(ts.cancel_order(&r.order.id).is_none());
    assert_eq!(ts.open_orders().len(), 1);
    assert_eq!(ts.open_orders()[0].id, other.order.id);
    assert_eq!(ts.order_history().len(), 1);
    assert_eq!(ts.order_history()[0].id, r.order.id);
    assert!(ts.cancel_order(&other.order.id).is_some());
}

#[test]
fn reducing_realizes_and_turning_takes_the_price() {
    let mut ts = account();
    place(&mut ts, Side::Buy, None, "2", &asks(&[("100", "5")]), &asks(&[]));
    place(&mut ts, Side::Sell, None, "1", &bids(&[("110", "5")]), &bids(&[]));
    let p = ts.try_portfolio_snapshot().unwrap();
    assert_eq!(p.positions[0].quantity, "1");
    assert_eq!(p.positions[0].avg_cost, "100");
    assert_eq!(p.positions[0].realized_pnl, "10");
    assert_eq!(p.cash, "99910");
    place(&mut ts, Side::Sell, None, "3", &bids(&[("90", "5")]), &bids(&[]));
    let p = ts.try_portfolio_snapshot().unwrap();
    assert_eq!(p.positions[0].quantity, "-2");
    assert_eq!(p.positions[0].avg_cost, "90");
    assert_eq!(p.positions[0].realized_pnl, "0");
    assert_eq!(p.cash, "100180");
    place(&mut ts, Side::Buy, None, "2", &asks(&[("80", "5")]), &asks(&[]));
    let p = ts.try_portfolio_snapshot().unwrap();
    assert_eq!(p.positions.len(), 0);
    assert_eq!(p.total_realized_pnl, "20");
    assert_eq!(p.cash, "100020");
}

#[test]
fn a_fill_moves_a_position_by_its_quantity() {
    let p = PositionInner::flat().apply_fill(d("2"), d("100")).unwrap();
    assert_eq!((p.qty, p.avg_cost, p.realized_pnl), (d("2"), d("100"), d("0")));
    let grown = p.apply_fill(d("2"), d("110")).unwrap();
    assert_eq!((grown.qty, grown.avg_cost, grown.realized_pnl), (d("4"), d("105"), d("0")));
    let closed = grown.apply_fill(d("-4"), d("120")).unwrap();
    assert_eq!((closed.qty, closed.avg_cost, closed.realized_pnl), (d("0"), d("0"), d("60")));
    let turned = grown.apply_fill(d("-5"), d("100")).unwrap();
    assert_eq!((turned.qty, turned.avg_cost, turned.realized_pnl), (d("-1"), d("100"), d("-20")));
    let short = turned.apply_fill(d("0.5"), d("90")).unwrap();
    assert_eq!((short.qty, short.avg_cost, short.realized_pnl), (d("-0.5"), d("100"), d("-15")));
}

#[test]
fn an_order_that_overflows_changes_nothing() {
    let huge = "79228162514264337593543950335";
    let mut ts = account();
    let r = ts.try_place_order(
        Side::Buy,
        OrderType::Market,
        "BTCUSDT".to_string(),
        None,
        d("10"),
        &asks(&[(huge, "10")]),
        &asks(&[]),
        1,
    );
    assert!(r.is_none());
    assert_eq!(ts.try_portfolio_snapshot().unwrap().cash, "100000");
    assert_eq!(ts.all_fills().len(), 0);
    place(&mut ts, Side::Buy, Some(huge), "10", &asks(&[]), &asks(&[]));
    assert!(ts.try_check_limits(&asks(&[(huge, "10")]), &asks(&[]), 2).is_none());
    assert_eq!(ts.open_orders().len(), 1);
}

#[test]
fn ids_are_random_uuids() {
    let mut ts = account();
    let r = place(&mut ts, Side::Buy, None, "1", &asks(&[("100", "1")]), &asks(&[]));
    let fill = &r.new_fills[0];
    for id in [&r.order.id, &fill.id] {
        let c: Vec<char> = id.chars().collect();
        assert_eq!(c.len(), 36);
        assert_eq!(c[14], '4');
        assert!("89ab".contains(c[19]));
        for (i, ch) in c.iter().enumerate() {
            if i == 8 || i == 13 || i == 18 || i == 23 {
                assert_eq!(*ch, '-');
            } else {
                assert!("0123456789abcdef".contains(*ch));
            }
        }
    }
    assert_ne!(r.order.id, fill.id);
    assert_eq!(fill.order_id, r.order.id);
    assert_eq!(fill.side, Side::Buy);
    assert_eq!(fill.ts_ms, 7);
}

#[test]
fn places_and_checks_agree_with_their_trying_twins() {
    let mut ts = account();
    let r = ts.place_order(
        Side::Buy,
        OrderType::Limit,
        "ETHUSDT".to_string(),
        Some(d("10")),
        d("2"),
        &asks(&[("9", "1")]),
        &asks(&[]),
        3,
    );
    assert_eq!(r.order.symbol, "ETHUSDT");
    assert_eq!(trades(&r), vec![trade("9", "1", "binance")]);
    assert_eq!(ts.check_limits(&asks(&[("10.00", "1")]), &asks(&[]), 4).len(), 1);
    let p = ts.portfolio_snapshot();
    assert_eq!(p.cash, "99981");
    assert_eq!(p.positions[0].avg_cost, "9.5");
}

#[test]
fn positions_are_kept_by_symbol() {
    let mut ts = account();
    for (symbol, price) in [("AAA", "10"), ("BBB", "20"), ("AAA", "30")] {
        ts.place_order(
            Side::Buy,
            OrderType::Market,
            symbol.to_string(),
            None,
            d("1"),
            &asks(&[(price, "1")]),
            &asks(&[]),
            3,
        );
    }
    let p = ts.portfolio_snapshot();
    assert_eq!(p.positions.len(), 2);
    let a = p.positions.iter().find(|q| q.symbol == "AAA").unwrap();
    assert_eq!((a.quantity.as_str(), a.avg_cost.as_str()), ("2", "20"));
}

#[test]
fn venues_have_names() {
    assert_eq!(Venue::Binance.name(), "binance");
    assert_eq!(Venue::Coindcx.name(), "coindcx");
}

#[test]
fn records_only_grow() {
    let mut ts = account();
    let mut fills: Vec<String> = Vec::new();
    let mut history: Vec<String> = Vec::new();
    for step in 0..4 {
        match step {
            0 => {
                place(&mut ts, Side::Buy, None, "1", &asks(&[("100", "1")]), &asks(&[]));
            }
            1 => {
                place(&mut ts, Side::Buy, Some("90"), "2", &asks(&[("90", "1")]), &asks(&[]));
                place(&mut ts, Side::Buy, Some("80"), "1", &asks(&[]), &asks(&[]));
            }
            2 => {
                ts.check_limits(&asks(&[("85", "1")]), &asks(&[]), 9);
            }
            _ => {
                let id = ts.open_orders()[0].id.clone();
                assert!(ts.cancel_order(&id).is_some());
            }
        }
        let now_fills: Vec<String> = ts.all_fills().iter().map(|f| f.id.clone()).collect();
        let now_history: Vec<String> = ts.order_history().iter().map(|o| o.id.clone()).collect();
        assert_eq!(now_fills[..fills.len()], fills[..]);
        assert_eq!(now_history[..history.len()], history[..]);
        fills = now_fills;
        history = now_history;
    }
    assert_eq!((fills.len(), history.len()), (3, 3));
}

fn balance(ts: &TradingState) -> Decimal {
    let p = ts.portfolio_snapshot();
    let mut total = d(&p.cash);
    for q in &p.positions {
        assert_ne!(q.quantity, "0");
        let cost = d(&q.quantity).checked_mul(d(&q.avg_cost)).unwrap();
        total = total.checked_add(cost).unwrap();
    }
    total.checked_sub(d(&p.total_realized_pnl)).unwrap()
}

#[test]
fn the_portfolio_adds_up() {
    let mut ts = account();
    let book = book(&[("99", "3"), ("98", "4")], &[("100", "2"), ("102", "2")]);
    let none = asks(&[]);
    assert_eq!(balance(&ts), d("100000"));
    place(&mut ts, Side::Buy, None, "4", &book, &none);
    assert_eq!(balance(&ts), d("100000"));
    place(&mut ts, Side::Sell, None, "6", &book, &none);
    assert_eq!(balance(&ts), d("100000"));
    let waiting = place(&mut ts, Side::Buy, Some("97"), "2", &book, &none);
    ts.check_limits(&asks(&[("96", "1")]), &none, 9);
    assert_eq!(balance(&ts), d("100000"));
    assert!(ts.cancel_order(&waiting.order.id).is_some());
    assert_eq!(balance(&ts), d("100000"));
}

#[test]
fn waiting_orders_are_in_step_and_in_their_order() {
    let mut ts = account();
    let none = asks(&[]);
    let mut placed: Vec<String> = Vec::new();
    for (limit, offer) in [("10", "11"), ("20", "20"), ("30", "31"), ("40", "40")] {
        let r = place(&mut ts, Side::Buy, Some(limit), "3", &asks(&[(offer, "1")]), &none);
        placed.push(r.order.id.clone());
    }
    ts.cancel_order(&placed[2]);
    ts.check_limits(&asks(&[("15", "1")]), &none, 9);
    let open = ts.open_orders();
    let ids: Vec<&String> = open.iter().map(|o| &o.id).collect();
    assert_eq!(ids, vec![&placed[0], &placed[1], &placed[3]]);
    for o in &open {
        assert_eq!(o.order_type, OrderType::Limit);
        assert!(d(&o.filled_qty).less(d(&o.quantity)));
        if o.filled_qty == "0" {
            assert_eq!((o.status, o.avg_fill_price.clone()), (OrderStatus::Open, None));
        } else {
            assert_eq!(o.status, OrderStatus::PartiallyFilled);
            assert!(o.avg_fill_price.is_some());
        }
    }
    ts.check_limits(&asks(&[("9", "9")]), &none, 9);
    let history: Vec<String> = ts.order_history().iter().map(|o| o.id.clone()).collect();
    assert_eq!(history.len(), 4);
    for id in &placed {
        assert_eq!(history.iter().filter(|h| *h == id).count(), 1);
    }
    assert_eq!(ts.open_orders().len(), 0);
}

#[test]
fn a_copied_portfolio_shows_the_same() {
    let mut ts = account();
    place(&mut ts, Side::Buy, None, "1", &asks(&[("100", "1")]), &asks(&[]));
    let p = ts.portfolio_snapshot();
    assert_eq!(format!("{:?}", p.clone()), format!("{:?}", p));
}

#[test]
fn an_order_is_paid_for_by_its_trades() {
    let mut ts = account();
    let r = place(
        &mut ts,
        Side::Sell,
        None,
        "3",
        &bids(&[("101", "2")]),
        &bids(&[("100", "2"), ("99", "9")]),
    );
    let mut paid = d("0");
    let mut total = d("0");
    for f in &r.new_fills {
        paid = paid.checked_add(d(&f.price).checked_mul(d(&f.quantity)).unwrap()).unwrap();
        total = total.checked_add(d(&f.quantity)).unwrap();
    }
    assert_eq!((paid, total), (d("302"), d("3")));
    let p = ts.portfolio_snapshot();
    assert_eq!(p.cash, "100302");
    assert_eq!(p.positions[0].quantity, "-3");
    assert_eq!(p.positions[0].avg_cost, "100.66666666666666666666666667");
}

#[test]
fn an_order_gets_all_that_is_within_its_limit() {
    let mut ts = account();
    let (a, b) = (asks(&[("100", "1"), ("103", "9")]), asks(&[("101", "2"), ("102", "4")]));
    let r = place(&mut ts, Side::Buy, Some("102"), "50", &a, &b);
    assert_eq!(r.order.filled_qty, "7");
    let r = place(&mut ts, Side::Buy, Some("102"), "2.5", &a, &b);
    assert_eq!(r.order.filled_qty, "2.5");
    assert_eq!(
        trades(&r),
        vec![trade("100", "1", "binance"), trade("101", "1.5", "coindcx")]
    );
}

#[test]
fn matching_ignores_the_account() {
    let (a, b) = (asks(&[("100", "1"), ("103", "9")]), asks(&[("101", "2")]));
    let mut rich = account();
    place(&mut rich, Side::Sell, None, "2", &bids(&[("50", "5")]), &bids(&[]));
    place(&mut rich, Side::Buy, Some("1"), "2", &asks(&[]), &asks(&[]));
    let mut poor = TradingState::new(d("-5"));
    let x = place(&mut rich, Side::Buy, None, "4", &a, &b);
    let y = place(&mut poor, Side::Buy, None, "4", &a, &b);
    assert_eq!(trades(&x), trades(&y));
    assert_eq!(x.order.avg_fill_price, y.order.avg_fill_price);
    assert_eq!(x.order.status, y.order.status);
}
