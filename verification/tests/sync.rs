use orderbook_backend::binance::{
    DepthUpdate, Gap, Outcome, Phase, Snapshot, SyncError, Syncer, MAX_BUFFER,
};
use orderbook_backend::book::OrderBook;
use orderbook_backend::decimal::Decimal;
use orderbook_backend::text::number_text;

fn d(text: &str) -> Decimal {
    Decimal::parse(text).unwrap()
}

fn texts(raw: &[(&str, &str)]) -> Vec<(String, String)> {
    raw.iter().map(|l| (l.0.to_string(), l.1.to_string())).collect()
}

fn update(first_id: u64, last_id: u64, bids: &[(&str, &str)]) -> DepthUpdate {
    DepthUpdate { event_time: 1, first_id, last_id, bids: texts(bids), asks: vec![] }
}

fn snapshot(id: u64) -> Snapshot {
    Snapshot {
        last_update_id: id,
        bids: texts(&[("100", "1")]),
        asks: texts(&[("110", "1")]),
    }
}

fn is_gap(r: &Result<Outcome, SyncError>, expected: u64, got: u64) -> bool {
    match r {
        Err(SyncError::Gap(g)) => g.expected == expected && g.got == got,
        _ => false,
    }
}

#[test]
fn updates_are_kept_until_the_snapshot_comes() {
    let mut book = OrderBook::default();
    let mut s = Syncer::new();
    assert_eq!(s.on_update(update(5, 8, &[("90", "1")]), &mut book).unwrap(), Outcome::Buffered);
    assert_eq!(s.on_update(update(9, 12, &[("91", "1")]), &mut book).unwrap(), Outcome::Buffered);
    assert_eq!(s.buffered(), 2);
    assert!(!s.is_live());
    assert_eq!(book.depth(), (0, 0));
    assert_eq!(s.on_snapshot(snapshot(8), &mut book).unwrap(), 1);
    assert!(s.is_live());
    assert_eq!(s.buffered(), 0);
    assert_eq!(book.depth(), (2, 1));
    assert!(matches!(s.phase, Phase::Live { last_u: 12 }));
}

#[test]
fn kept_or_one_by_one_the_book_is_the_same() {
    let series = [(3, 5, "90"), (6, 7, "91"), (8, 8, "92")];
    let mut kept_book = OrderBook::default();
    let mut kept = Syncer::new();
    for (a, b, p) in series {
        kept.on_update(update(a, b, &[(p, "1")]), &mut kept_book).unwrap();
    }
    assert_eq!(kept.on_snapshot(snapshot(4), &mut kept_book).unwrap(), 3);
    let mut book = OrderBook::default();
    let mut s = Syncer::new();
    assert_eq!(s.on_snapshot(snapshot(4), &mut book).unwrap(), 0);
    assert!(!s.is_live());
    assert!(matches!(s.phase, Phase::AwaitFirst { last_update_id: 4 }));
    for (a, b, p) in series {
        assert_eq!(s.on_update(update(a, b, &[(p, "1")]), &mut book).unwrap(), Outcome::Applied);
    }
    assert_eq!(book.top(10), kept_book.top(10));
    assert!(matches!(s.phase, Phase::Live { last_u: 8 }));
    assert!(matches!(kept.phase, Phase::Live { last_u: 8 }));
}

#[test]
fn old_updates_are_ignored() {
    let mut book = OrderBook::default();
    let mut s = Syncer::new();
    s.on_snapshot(snapshot(10), &mut book).unwrap();
    assert_eq!(s.on_update(update(8, 10, &[("1", "1")]), &mut book).unwrap(), Outcome::Ignored);
    assert!(!s.is_live());
    assert_eq!(s.on_update(update(9, 11, &[("2", "1")]), &mut book).unwrap(), Outcome::Applied);
    assert_eq!(s.on_update(update(11, 11, &[("3", "1")]), &mut book).unwrap(), Outcome::Ignored);
    assert_eq!(book.depth(), (2, 1));
}

#[test]
fn missing_updates_are_a_gap() {
    let mut book = OrderBook::default();
    let mut s = Syncer::new();
    s.on_snapshot(snapshot(10), &mut book).unwrap();
    assert!(is_gap(&s.on_update(update(12, 13, &[("1", "1")]), &mut book), 11, 12));
    assert_eq!(s.on_update(update(5, 11, &[]), &mut book).unwrap(), Outcome::Applied);
    assert!(is_gap(&s.on_update(update(13, 14, &[("1", "1")]), &mut book), 12, 13));
    assert!(is_gap(&s.on_update(update(11, 14, &[("1", "1")]), &mut book), 12, 11));
    assert_eq!(book.depth(), (1, 1));
    assert!(matches!(s.phase, Phase::Live { last_u: 11 }));
}

#[test]
fn a_gap_in_what_was_kept_stops_the_replay() {
    let mut book = OrderBook::default();
    let mut s = Syncer::new();
    s.on_update(update(5, 6, &[("90", "1")]), &mut book).unwrap();
    s.on_update(update(9, 9, &[("91", "1")]), &mut book).unwrap();
    s.on_update(update(10, 10, &[("92", "1")]), &mut book).unwrap();
    let e = s.on_snapshot(snapshot(4), &mut book).unwrap_err();
    assert!(matches!(e, SyncError::Gap(Gap { expected: 7, got: 9 })));
    assert_eq!(e.message(), "sequence gap: expected U=7 got U=9");
    assert!(matches!(s.phase, Phase::Live { last_u: 6 }));
    assert_eq!(book.depth(), (2, 1));
}

#[test]
fn an_unreadable_update_changes_nothing() {
    let mut book = OrderBook::default();
    let mut s = Syncer::new();
    s.on_snapshot(snapshot(10), &mut book).unwrap();
    let e = s.on_update(update(11, 12, &[("90", "1"), ("bad", "1")]), &mut book).unwrap_err();
    assert!(e.message().starts_with("bad price \"bad\": "));
    assert!(matches!(s.phase, Phase::AwaitFirst { last_update_id: 10 }));
    assert_eq!(book.depth(), (1, 1));
}

#[test]
fn an_unreadable_snapshot_drops_what_was_kept() {
    let mut book = OrderBook::default();
    let mut s = Syncer::new();
    s.on_snapshot(snapshot(1), &mut book).unwrap();
    s.reset();
    s.on_update(update(5, 6, &[]), &mut book).unwrap();
    let bad = Snapshot { last_update_id: 4, bids: vec![], asks: texts(&[("1", "q")]) };
    assert!(matches!(s.on_snapshot(bad, &mut book), Err(SyncError::BadLevel(_))));
    assert_eq!(s.buffered(), 0);
    assert!(matches!(s.phase, Phase::Buffering(_)));
    assert_eq!(book.depth(), (1, 1));
}

#[test]
fn only_so_many_updates_are_kept() {
    let mut book = OrderBook::default();
    let mut s = Syncer::new();
    for i in 0..MAX_BUFFER as u64 {
        s.on_update(update(i, i, &[]), &mut book).unwrap();
    }
    let e = s.on_update(update(0, 0, &[]), &mut book).unwrap_err();
    assert!(matches!(e, SyncError::BufferFull));
    assert_eq!(e.message(), "buffer overflow while waiting for snapshot");
    assert_eq!(s.buffered(), 20000);
}

#[test]
fn an_update_changes_both_sides() {
    let mut book = OrderBook::default();
    let mut s = Syncer::new();
    s.on_snapshot(snapshot(10), &mut book).unwrap();
    let ev = DepthUpdate {
        event_time: 1,
        first_id: 11,
        last_id: 11,
        bids: texts(&[("100", "0"), ("99", "2")]),
        asks: texts(&[("109", "3")]),
    };
    s.on_update(ev.clone(), &mut book).unwrap();
    assert_eq!(book.best_bid(), Some((d("99"), d("2"))));
    assert_eq!(book.best_ask(), Some((d("109"), d("3"))));
}

#[test]
fn numbers_as_text() {
    assert_eq!(number_text(0), "0");
    assert_eq!(number_text(1234567890), "1234567890");
    assert_eq!(number_text(u64::MAX), "18446744073709551615");
}
