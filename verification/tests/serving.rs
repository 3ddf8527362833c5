use orderbook_backend::decimal::Decimal;
use orderbook_backend::execution::{OrderType, Side};
use orderbook_backend::matching::TradingState;
use orderbook_backend::server::{
    book_msg, read_order, take_order, LastSent, OrderRequest, RequestError,
};
use orderbook_backend::state::{trading_events, FeedState, FeedStatus, TradingEvent};

fn d(text: &str) -> Decimal {
    Decimal::parse(text).unwrap()
}

fn request(order_type: OrderType, price: Option<&str>, quantity: &str) -> OrderRequest {
    OrderRequest {
        side: Side::Sell,
        order_type,
        symbol: None,
        price: price.map(|p| p.to_string()),
        quantity: quantity.to_string(),
    }
}

#[test]
fn clients_see_the_best_levels() {
    let mut st = FeedState::new("coindcx", "B-BTC_USDT".to_string());
    st.book.replace(
        vec![(d("99"), d("1.50")), (d("100.00"), d("2"))],
        vec![(d("101"), d("3")), (d("102"), d("4"))],
    );
    st.set_status(FeedStatus::Live);
    st.stats.messages = 4;
    st.last_seq = Some(8);
    let m = book_msg(&st, 1, 99);
    assert_eq!(m.exchange, "coindcx");
    assert_eq!(m.symbol, "B-BTC_USDT");
    assert_eq!(m.status, FeedStatus::Live);
    assert_eq!(m.bids, vec![("100".to_string(), "2".to_string())]);
    assert_eq!(m.asks, vec![("101".to_string(), "3".to_string())]);
    assert_eq!(m.stats.messages, 4);
    assert_eq!((m.last_seq, m.last_update_ms, m.last_local_ms), (Some(8), None, None));
    assert_eq!((m.version, m.server_ms), (1, 99));
    let m = book_msg(&st, 20, 99);
    assert_eq!(m.bids[1], ("99".to_string(), "1.5".to_string()));
}

#[test]
fn changes_are_sent_once_and_again_after_a_while() {
    let sent = LastSent { version: 3, at_ms: 1000 };
    assert!(!sent.is_due(3, 1000));
    assert!(!sent.is_due(3, 1999));
    assert!(sent.is_due(3, 2000));
    assert!(sent.is_due(4, 1000));
    assert!(!sent.is_due(3, 0));
    assert!(LastSent::nothing().is_due(0, 0));
}

#[test]
fn orders_are_read() {
    let t = read_order(request(OrderType::Limit, Some("100.5"), "2")).unwrap();
    assert_eq!(t.symbol, "BTCUSDT");
    assert_eq!(t.side, Side::Sell);
    assert_eq!(t.order_type, OrderType::Limit);
    assert_eq!(t.limit_price, Some(d("100.5")));
    assert_eq!(t.quantity, d("2"));
    let mut named = request(OrderType::Market, None, "1");
    named.symbol = Some("ETHUSDT".to_string());
    let t = read_order(named).unwrap();
    assert_eq!(t.symbol, "ETHUSDT");
    assert_eq!(t.limit_price, None);
}

#[test]
fn a_market_order_has_no_limit() {
    let t = read_order(request(OrderType::Market, Some("nonsense"), "1")).unwrap();
    assert_eq!(t.limit_price, None);
    let t = read_order(request(OrderType::Limit, None, "1")).unwrap();
    assert_eq!(t.limit_price, None);
}

#[test]
fn what_is_wrong_with_a_request() {
    for q in ["", "0", "-1", "abc", "0.00"] {
        let e = read_order(request(OrderType::Limit, Some("bad"), q)).unwrap_err();
        assert_eq!(e, RequestError::InvalidQuantity);
        assert_eq!(e.message(), "invalid quantity");
    }
    for p in ["", "0", "-1", "abc"] {
        let e = read_order(request(OrderType::Limit, Some(p), "1")).unwrap_err();
        assert_eq!(e, RequestError::InvalidLimitPrice);
        assert_eq!(e.message(), "invalid limit price");
    }
}

#[test]
fn fills_are_news_before_their_order() {
    let mut st = FeedState::new("binance", "BTCUSDT".to_string());
    st.book.replace(vec![], vec![(d("10"), d("1")), (d("11"), d("1"))]);
    let mut ts = TradingState::new(d("1000"));
    let r = ts
        .try_place_order(
            Side::Buy,
            OrderType::Market,
            "BTCUSDT".to_string(),
            None,
            d("2"),
            &st.book,
            &st.book.clone(),
            1,
        )
        .unwrap();
    let events = trading_events(&r);
    assert_eq!(events.len(), r.new_fills.len() + 1);
    match &events[0] {
        TradingEvent::Fill { fill } => assert_eq!(fill.id, r.new_fills[0].id),
        _ => panic!("no fill"),
    }
    assert_eq!(format!("{:?}", events[0].clone()), format!("{:?}", events[0]));
    match events.last().unwrap() {
        TradingEvent::OrderUpdate { order } => assert_eq!(order.id, r.order.id),
        _ => panic!("no order"),
    }
}

#[test]
fn a_request_is_placed_or_refused() {
    let mut st = FeedState::new("binance", "BTCUSDT".to_string());
    st.book.replace(vec![(d("10"), d("1"))], vec![]);
    let empty = FeedState::new("coindcx", "B-BTC_USDT".to_string()).book;
    let mut ts = TradingState::new(d("1000"));
    let r = take_order(&mut ts, request(OrderType::Limit, Some("-1"), "1"), &st.book, &empty, 5);
    assert!(matches!(r, Err(RequestError::InvalidLimitPrice)));
    assert_eq!(ts.order_history().len() + ts.open_orders().len(), 0);
    match take_order(&mut ts, request(OrderType::Limit, Some("9"), "3"), &st.book, &empty, 5) {
        Ok(Some(m)) => {
            assert_eq!(m.order.symbol, "BTCUSDT");
            assert_eq!(m.order.filled_qty, "1");
            assert_eq!(m.new_fills.len(), 1);
        }
        _ => panic!("refused"),
    }
    assert_eq!(ts.open_orders().len(), 1);
    st.book.replace(vec![(d("79228162514264337593543950335"), d("9"))], vec![]);
    let r = take_order(&mut ts, request(OrderType::Market, None, "9"), &st.book, &empty, 6);
    assert!(matches!(r, Ok(None)));
    assert_eq!(ts.open_orders().len(), 1);
    assert_eq!(ts.all_fills().len(), 1);
}
