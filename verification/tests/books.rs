use orderbook_backend::book::{parse_levels, Level, LevelField, OrderBook};
use orderbook_backend::decimal::Decimal;

fn d(text: &str) -> Decimal {
    Decimal::parse(text).unwrap()
}

fn levels(raw: &[(&str, &str)]) -> Vec<Level> {
    raw.iter().map(|l| (d(l.0), d(l.1))).collect()
}

fn texts(raw: &[(&str, &str)]) -> Vec<(String, String)> {
    raw.iter().map(|l| (l.0.to_string(), l.1.to_string())).collect()
}

fn book(bids: &[(&str, &str)], asks: &[(&str, &str)]) -> OrderBook {
    let mut b = OrderBook::default();
    b.replace(levels(bids), levels(asks));
    b
}

#[test]
fn an_empty_book_has_nothing() {
    let b = OrderBook::default();
    assert!(b.best_bid().is_none());
    assert!(b.best_ask().is_none());
    assert_eq!(b.depth(), (0, 0));
    assert!(!b.is_crossed());
    assert_eq!(b.top(5).0.len(), 0);
}

#[test]
fn the_best_levels_come_first() {
    let b = book(
        &[("99", "1"), ("101", "2"), ("100", "3")],
        &[("104", "4"), ("102", "5"), ("103", "6")],
    );
    assert_eq!(b.best_bid(), Some((d("101"), d("2"))));
    assert_eq!(b.best_ask(), Some((d("102"), d("5"))));
    let (bids, asks) = b.top(2);
    assert_eq!(bids, levels(&[("101", "2"), ("100", "3")]));
    assert_eq!(asks, levels(&[("102", "5"), ("103", "6")]));
    assert_eq!(b.top(10).0.len(), 3);
    assert_eq!(b.top(0).1.len(), 0);
    assert_eq!(b.depth(), (3, 3));
}

#[test]
fn a_zero_quantity_takes_the_level_out() {
    let mut b = book(&[("100", "1"), ("99", "1")], &[("101", "1")]);
    b.apply_delta(&levels(&[("100", "0"), ("98", "2")]), &levels(&[("101", "0.0"), ("105", "0")]));
    assert_eq!(b.depth(), (2, 0));
    assert_eq!(b.best_bid(), Some((d("99"), d("1"))));
    assert!(b.best_ask().is_none());
}

#[test]
fn a_change_sets_the_quantity_and_keeps_the_price_as_written() {
    let mut b = book(&[], &[("101.0", "1")]);
    b.apply_delta(&[], &levels(&[("101.00", "7")]));
    assert_eq!(b.depth(), (0, 1));
    let best = b.best_ask().unwrap();
    assert_eq!(best.1, d("7"));
    assert_eq!(format!("{:?}", best.0), format!("{:?}", d("101.0")));
}

#[test]
fn the_last_change_of_a_price_decides() {
    let mut b = OrderBook::default();
    b.apply_delta(&levels(&[("100", "1"), ("100", "0"), ("100", "4")]), &[]);
    assert_eq!(b.best_bid(), Some((d("100"), d("4"))));
    b.apply_delta(&levels(&[("100", "9"), ("100", "0")]), &[]);
    assert!(b.best_bid().is_none());
}

#[test]
fn changes_twice_are_changes_once() {
    let delta = levels(&[("100", "0"), ("98", "2"), ("97", "3")]);
    let mut once = book(&[("100", "1"), ("99", "1")], &[]);
    once.apply_delta(&delta, &[]);
    let mut twice = book(&[("100", "1"), ("99", "1")], &[]);
    twice.apply_delta(&delta, &[]);
    twice.apply_delta(&delta, &[]);
    assert_eq!(once.top(10), twice.top(10));
    assert_eq!(once.top(10).0, levels(&[("99", "1"), ("98", "2"), ("97", "3")]));
}

#[test]
fn replacing_forgets_and_skips_zero_quantities() {
    let mut b = book(&[("100", "1")], &[("101", "1")]);
    b.replace(levels(&[("90", "0"), ("91", "5"), ("91", "6")]), vec![]);
    assert_eq!(b.top(10).0, levels(&[("91", "6")]));
    assert_eq!(b.depth(), (1, 0));
    b.clear();
    assert_eq!(b.depth(), (0, 0));
}

#[test]
fn equal_or_inverted_prices_cross() {
    assert!(book(&[("100", "1")], &[("100", "1")]).is_crossed());
    assert!(book(&[("101", "1")], &[("100", "1")]).is_crossed());
    assert!(!book(&[("99.9", "1")], &[("100", "1")]).is_crossed());
    assert!(!book(&[("101", "1")], &[]).is_crossed());
}

#[test]
fn a_copy_is_the_same_book() {
    let b = book(&[("100", "1"), ("99", "2")], &[("101", "3")]);
    assert_eq!(b.clone().top(10), b.top(10));
}

#[test]
fn levels_are_read() {
    let r = parse_levels(&texts(&[("100.5", "2"), ("99", "0")])).unwrap();
    assert_eq!(r, levels(&[("100.5", "2"), ("99", "0")]));
    assert_eq!(parse_levels(&[]).unwrap().len(), 0);
}

#[test]
fn the_first_unreadable_text_is_reported() {
    let e = parse_levels(&texts(&[("1", "2"), ("a\"b", "c"), ("x", "y")])).unwrap_err();
    assert_eq!(e.field, LevelField::Price);
    assert_eq!(e.raw, "a\"b");
    assert!(!e.reason.is_empty());
    assert_eq!(e.message(), format!("bad price \"a\\\"b\": {}", e.reason));
    let e = parse_levels(&texts(&[("1", "two")])).unwrap_err();
    assert_eq!(e.field, LevelField::Qty);
    assert_eq!(e.message(), format!("bad qty \"two\": {}", e.reason));
}

#[test]
fn changes_in_two_parts_are_changes_in_one() {
    let (a, b) = (
        levels(&[("100", "0"), ("98", "2")]),
        levels(&[("98", "0"), ("97", "3"), ("100", "5")]),
    );
    let mut parts = book(&[("100", "1"), ("99", "1")], &[]);
    parts.apply_delta(&a, &[]);
    parts.apply_delta(&b, &[]);
    let mut whole = book(&[("100", "1"), ("99", "1")], &[]);
    let both: Vec<Level> = a.iter().chain(b.iter()).copied().collect();
    whole.apply_delta(&both, &[]);
    assert_eq!(parts.top(10), whole.top(10));
    assert_eq!(whole.top(10).0, levels(&[("100", "5"), ("99", "1"), ("97", "3")]));
}
