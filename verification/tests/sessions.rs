use orderbook_backend::binance::{DepthUpdate, Snapshot, SyncError};
use orderbook_backend::binance_session::{BinanceSession, DepthReport, Silence, SnapshotReport};
use orderbook_backend::clock::{millis_or_zero, now_ms};
use orderbook_backend::coindcx::{
    is_depth_event, read_namespace_reply, read_open, read_packet, CoindcxSession, DepthNews,
    DepthPayload, Packet, SeedReport, SessionError,
};
use orderbook_backend::execution::Venue;
use orderbook_backend::session::{
    check_freshness, end_attempt, note_error, start_attempt, start_attempt_afresh,
    wait_after_session, Freshness,
};
use orderbook_backend::state::{venue_named, Backoff, FeedState, FeedStatus};

fn texts(raw: &[(&str, &str)]) -> Vec<(String, String)> {
    raw.iter().map(|l| (l.0.to_string(), l.1.to_string())).collect()
}

fn feed() -> FeedState {
    FeedState::new("binance", "BTCUSDT".to_string())
}

fn update(first_id: u64, last_id: u64, bids: &[(&str, &str)]) -> DepthUpdate {
    DepthUpdate { event_time: 77, first_id, last_id, bids: texts(bids), asks: vec![] }
}

fn snapshot(id: u64) -> Snapshot {
    Snapshot { last_update_id: id, bids: texts(&[("100", "1")]), asks: texts(&[("110", "1")]) }
}

fn payload(bids: &[(&str, &str)], asks: &[(&str, &str)], replace: Option<bool>) -> DepthPayload {
    DepthPayload { event_time: Some(5), bids: texts(bids), asks: texts(asks), replace }
}

#[test]
fn waits_double_up_to_the_limit() {
    let mut b = Backoff::new(500, 30_000);
    let waits: Vec<u64> = (0..9).map(|_| b.next()).collect();
    assert_eq!(waits, vec![500, 1000, 2000, 4000, 8000, 16000, 30000, 30000, 30000]);
    b.reset();
    assert_eq!(b.next(), 500);
}

#[test]
fn a_long_session_starts_the_waits_again() {
    let mut b = Backoff::new(500, 30_000);
    assert_eq!(wait_after_session(&mut b, 0, 60_000), 500);
    assert_eq!(wait_after_session(&mut b, 0, 60_000), 1000);
    assert_eq!(wait_after_session(&mut b, 0, 60_001), 500);
    assert_eq!(wait_after_session(&mut b, 99, 0), 1000);
}

#[test]
fn versions_change_with_what_is_shown() {
    let mut st = feed();
    assert_eq!(st.status, FeedStatus::Connecting);
    st.set_status(FeedStatus::Connecting);
    assert_eq!(st.version, 0);
    st.set_status(FeedStatus::Live);
    assert_eq!(st.version, 1);
    st.version = u64::MAX;
    st.touch();
    assert_eq!(st.version, 0);
}

#[test]
fn attempts_are_counted_and_keep_their_error() {
    let mut st = feed();
    start_attempt(&mut st, true);
    assert_eq!((st.status, st.version), (FeedStatus::Connecting, 1));
    end_attempt(&mut st, Some("gone".to_string()));
    assert_eq!(st.status, FeedStatus::Reconnecting);
    assert_eq!(st.stats.reconnects, 1);
    assert_eq!(st.stats.last_error, Some("gone".to_string()));
    end_attempt(&mut st, None);
    assert_eq!(st.stats.reconnects, 2);
    assert_eq!(st.stats.last_error, Some("gone".to_string()));
    note_error(&mut st, "other".to_string());
    assert_eq!(st.stats.last_error, Some("other".to_string()));
}

#[test]
fn a_fresh_attempt_clears_the_book() {
    let mut st = feed();
    let mut waits = Backoff::new(500, 30_000);
    let mut s = BinanceSession::new(0);
    s.on_snapshot(snapshot(1), &mut st, &mut waits, 0);
    start_attempt(&mut st, false);
    assert_eq!(st.book.depth(), (1, 1));
    assert_eq!(st.status, FeedStatus::Reconnecting);
    start_attempt_afresh(&mut st, false);
    assert_eq!(st.book.depth(), (0, 0));
}

#[test]
fn a_session_goes_live_with_the_first_update_after_the_snapshot() {
    let mut st = feed();
    let mut waits = Backoff::new(500, 30_000);
    waits.next();
    let mut s = BinanceSession::new(3);
    st.set_status(FeedStatus::Syncing);
    assert!(matches!(s.on_depth(update(5, 6, &[]), &mut st, &mut waits, 10, 11), DepthReport::Kept));
    assert_eq!(s.last_depth, 10);
    assert_eq!(s.last_frame, 3);
    assert_eq!(st.stats.messages, 1);
    let r = s.on_snapshot(snapshot(6), &mut st, &mut waits, 12);
    match r {
        SnapshotReport::Installed { bids, asks, buffered, applied, live } => {
            assert_eq!((bids, asks, buffered, applied, live), (1, 1, 1, 0, false));
        }
        _ => panic!("refused"),
    }
    assert_eq!(st.status, FeedStatus::Syncing);
    assert_eq!(st.last_seq, Some(6));
    assert_eq!(st.last_local_ms, Some(12));
    let r = s.on_depth(update(7, 9, &[("99", "1")]), &mut st, &mut waits, 20, 21);
    assert!(matches!(r, DepthReport::WentLive { bids: 2, asks: 1 }));
    assert_eq!(st.status, FeedStatus::Live);
    assert_eq!((st.last_seq, st.last_update_ms, st.last_local_ms), (Some(9), Some(77), Some(21)));
    assert_eq!(waits.next(), 500);
    let version = st.version;
    let r = s.on_depth(update(10, 10, &[("98", "1")]), &mut st, &mut waits, 30, 31);
    assert!(matches!(r, DepthReport::Applied));
    assert_eq!(st.version, version + 1);
    assert!(matches!(s.on_depth(update(9, 10, &[]), &mut st, &mut waits, 40, 41), DepthReport::Ignored));
    assert_eq!(st.stats.messages, 4);
}

#[test]
fn a_snapshot_with_updates_kept_for_it_goes_live() {
    let mut st = feed();
    let mut waits = Backoff::new(500, 30_000);
    let mut s = BinanceSession::new(0);
    s.on_depth(update(5, 6, &[("90", "1")]), &mut st, &mut waits, 0, 0);
    let r = s.on_snapshot(snapshot(5), &mut st, &mut waits, 1);
    assert!(matches!(r, SnapshotReport::Installed { buffered: 1, applied: 1, live: true, .. }));
    assert_eq!(st.status, FeedStatus::Live);
    assert_eq!(st.last_seq, Some(5));
}

#[test]
fn a_gap_starts_over() {
    let mut st = feed();
    let mut waits = Backoff::new(500, 30_000);
    let mut s = BinanceSession::new(0);
    s.on_snapshot(snapshot(5), &mut st, &mut waits, 1);
    let r = s.on_depth(update(9, 9, &[]), &mut st, &mut waits, 2, 2);
    assert!(matches!(r, DepthReport::Refused(SyncError::Gap(_))));
    assert_eq!((st.stats.gaps, st.stats.resyncs, st.stats.messages), (1, 1, 1));
    assert_eq!(st.status, FeedStatus::Syncing);
    assert!(s.wants_snapshot(false));
    assert!(!s.wants_snapshot(true));
    s.on_snapshot_requested();
    assert!(!s.wants_snapshot(false));
    assert!(matches!(s.on_depth(update(10, 10, &[]), &mut st, &mut waits, 3, 3), DepthReport::Kept));
    s.on_snapshot_failed();
    assert!(s.wants_snapshot(false));
}

#[test]
fn a_gap_after_the_snapshot_starts_over() {
    let mut st = feed();
    let mut waits = Backoff::new(500, 30_000);
    let mut s = BinanceSession::new(0);
    s.on_depth(update(9, 9, &[]), &mut st, &mut waits, 0, 0);
    let r = s.on_snapshot(snapshot(5), &mut st, &mut waits, 1);
    assert!(matches!(r, SnapshotReport::Refused(SyncError::Gap(_))));
    assert_eq!((st.stats.gaps, st.stats.resyncs), (1, 1));
    assert!(s.wants_snapshot(false));
    assert_eq!(s.syncer.buffered(), 0);
    assert_eq!(st.last_seq, None);
}

#[test]
fn a_crossed_book_starts_over() {
    let mut st = feed();
    let mut waits = Backoff::new(500, 30_000);
    let mut s = BinanceSession::new(0);
    s.on_snapshot(snapshot(5), &mut st, &mut waits, 1);
    let r = s.on_depth(update(6, 6, &[("110", "1")]), &mut st, &mut waits, 2, 2);
    assert!(matches!(r, DepthReport::Crossed));
    assert_eq!((st.stats.gaps, st.stats.resyncs), (0, 1));
    assert_eq!(st.status, FeedStatus::Syncing);
    assert!(s.wants_snapshot(false));
}

#[test]
fn a_stale_feed_resumes() {
    let mut st = feed();
    let mut waits = Backoff::new(500, 30_000);
    let mut s = BinanceSession::new(0);
    s.on_snapshot(snapshot(5), &mut st, &mut waits, 1);
    s.on_depth(update(6, 6, &[]), &mut st, &mut waits, 0, 0);
    assert_eq!(st.status, FeedStatus::Live);
    assert_eq!(s.on_tick(&mut st, 5000), Ok(Freshness::Unchanged));
    assert_eq!(s.on_tick(&mut st, 5001), Ok(Freshness::WentStale));
    assert_eq!(st.status, FeedStatus::Stale);
    assert_eq!(s.on_tick(&mut st, 5002), Ok(Freshness::Unchanged));
    let r = s.on_depth(update(7, 7, &[]), &mut st, &mut waits, 6000, 6000);
    assert!(matches!(r, DepthReport::Resumed));
    assert_eq!(st.status, FeedStatus::Live);
}

#[test]
fn a_connection_without_frames_is_given_up() {
    let mut st = feed();
    let mut s = BinanceSession::new(0);
    assert_eq!(s.on_tick(&mut st, 30_000), Ok(Freshness::Unchanged));
    let e = s.on_tick(&mut st, 30_001).unwrap_err();
    assert_eq!(e, Silence::NoFrames);
    assert_eq!(e.message(), "no frames for 30s");
    s.on_frame(20_000);
    assert_eq!(s.on_tick(&mut st, 30_001), Ok(Freshness::Unchanged));
}

#[test]
fn freshness_settles() {
    let mut st = feed();
    st.set_status(FeedStatus::Stale);
    assert_eq!(check_freshness(&mut st, 5000), Freshness::Resumed);
    assert_eq!(check_freshness(&mut st, 5000), Freshness::Unchanged);
    assert_eq!(check_freshness(&mut st, 5001), Freshness::WentStale);
    assert_eq!(check_freshness(&mut st, 5001), Freshness::Unchanged);
}

#[test]
fn packets_are_told_apart() {
    assert!(matches!(read_packet("2"), Packet::Ping));
    assert!(matches!(read_packet("1"), Packet::Close));
    assert!(matches!(read_packet("41"), Packet::Disconnect));
    assert!(matches!(read_packet("41{}"), Packet::Disconnect));
    match read_packet("42[\"é\",1]") {
        Packet::Event(body) => assert_eq!(body, "[\"é\",1]"),
        _ => panic!("no event"),
    }
    for other in ["", "0", "3", "4", "40", "2probe", "1x", "43", "é2"] {
        assert!(matches!(read_packet(other), Packet::Other));
    }
}

#[test]
fn the_handshake_is_read() {
    assert_eq!(read_open("0{\"a\":1}"), Some("{\"a\":1}".to_string()));
    assert_eq!(read_open("0"), Some("".to_string()));
    assert_eq!(read_open(""), None);
    assert_eq!(read_open("40"), None);
    assert!(matches!(read_namespace_reply("40{}"), Ok(true)));
    assert!(matches!(read_namespace_reply("2"), Ok(false)));
    assert!(matches!(read_namespace_reply("42"), Ok(false)));
    let e = read_namespace_reply("44{no}").unwrap_err();
    assert_eq!(e.message(), "namespace rejected: 44{no}");
}

#[test]
fn the_inner_name_of_an_event_counts() {
    let depth = "depth-update".to_string();
    let other = "trade".to_string();
    assert!(is_depth_event(&depth, &None));
    assert!(!is_depth_event(&other, &None));
    assert!(is_depth_event(&other, &Some(depth.clone())));
    assert!(!is_depth_event(&depth, &Some(other.clone())));
}

#[test]
fn whole_books_and_changes() {
    let mut st = FeedState::new("coindcx", "B-BTC_USDT".to_string());
    let mut waits = Backoff::new(500, 30_000);
    waits.next();
    let mut s = CoindcxSession::new(25_000, 20_000, 0);
    assert_eq!(s.ping_dead_ms, 50_000);
    let r = s.on_depth(&payload(&[("100", "1")], &[("110", "1")], None), &mut st, &mut waits, 9, 10);
    assert!(matches!(r, Ok(DepthNews::WentLive { bids: 1, asks: 1 })));
    assert_eq!(st.status, FeedStatus::Live);
    assert_eq!((st.last_update_ms, st.last_local_ms, st.last_seq), (Some(5), Some(10), None));
    assert_eq!(waits.next(), 500);
    assert_eq!(s.last_depth, 9);
    assert!(s.got_ws_depth);
    let r = s.on_depth(&payload(&[("99", "2")], &[], Some(false)), &mut st, &mut waits, 11, 12);
    assert!(matches!(r, Ok(DepthNews::Applied)));
    assert_eq!(st.book.depth(), (2, 1));
    let r = s.on_depth(&payload(&[("98", "2")], &[], Some(true)), &mut st, &mut waits, 13, 14);
    assert!(matches!(r, Ok(DepthNews::Applied)));
    assert_eq!(st.book.depth(), (1, 0));
    assert_eq!(st.stats.messages, 3);
}

#[test]
fn a_crossed_or_unreadable_book_ends_the_session() {
    let mut st = FeedState::new("coindcx", "B-BTC_USDT".to_string());
    let mut waits = Backoff::new(500, 30_000);
    let mut s = CoindcxSession::new(25_000, 20_000, 0);
    let e = s.on_depth(&payload(&[("1", "x")], &[], None), &mut st, &mut waits, 9, 10).unwrap_err();
    assert!(e.message().starts_with("bad qty \"x\": "));
    assert!(!s.got_ws_depth);
    assert_eq!(st.stats.messages, 0);
    let e = s
        .on_depth(&payload(&[("110", "1")], &[("110", "1")], None), &mut st, &mut waits, 9, 10)
        .unwrap_err();
    assert_eq!(e.message(), "crossed book received from venue");
    assert_eq!(st.book.depth(), (1, 1));
    assert_eq!(st.status, FeedStatus::Connecting);
    assert_eq!(SessionError::Disconnected.message(), "namespace disconnected by server");
}

#[test]
fn a_seed_is_used_until_depth_has_come() {
    let mut st = FeedState::new("coindcx", "B-BTC_USDT".to_string());
    let mut waits = Backoff::new(500, 30_000);
    let mut s = CoindcxSession::new(1, 1, 0);
    let (bids, asks) = (texts(&[("100", "1"), ("99", "0")]), texts(&[("110", "1")]));
    let r = s.on_seed(&bids, &asks, &mut st, 33);
    assert!(matches!(r, SeedReport::Seeded { bids: 1, asks: 1 }));
    assert_eq!((st.last_local_ms, st.version), (Some(33), 1));
    assert_eq!(st.status, FeedStatus::Connecting);
    let bad = texts(&[("no", "1")]);
    match s.on_seed(&bids, &bad, &mut st, 34) {
        SeedReport::Unreadable(e) => assert!(e.message().starts_with("bad price \"no\": ")),
        _ => panic!("readable"),
    }
    assert_eq!(st.version, 1);
    s.on_depth(&payload(&[], &[], None), &mut st, &mut waits, 9, 10).unwrap();
    assert!(matches!(s.on_seed(&bids, &asks, &mut st, 35), SeedReport::Late));
    assert_eq!(st.book.depth(), (0, 0));
}

#[test]
fn a_silent_connection_is_given_up() {
    let mut st = FeedState::new("coindcx", "B-BTC_USDT".to_string());
    let mut s = CoindcxSession::new(3_000, 2_000, 0);
    assert_eq!(s.ping_dead_ms, 10_000);
    let e = s.on_tick(&mut st, 10_001).unwrap_err();
    assert_eq!(e.message(), "no frames (not even Engine.IO ping) for 10000 ms");
    s.on_frame(15_000);
    assert!(matches!(s.on_tick(&mut st, 20_000), Ok(Freshness::Unchanged)));
    let e = s.on_tick(&mut st, 20_001).unwrap_err();
    assert_eq!(e.message(), "no depth updates for 20s; forcing reconnect");
    st.set_status(FeedStatus::Live);
    assert!(matches!(s.on_tick(&mut st, 5_001), Ok(Freshness::WentStale)));
}

#[test]
fn names_stand_for_venues() {
    assert_eq!(venue_named(&"binance".to_string()), Venue::Binance);
    assert_eq!(venue_named(&"coindcx".to_string()), Venue::Coindcx);
    assert_eq!(venue_named(&"anything".to_string()), Venue::Coindcx);
}

#[test]
fn the_clock_runs() {
    assert!(now_ms() > 1_500_000_000_000);
    assert_eq!(millis_or_zero(None), 0);
    assert_eq!(millis_or_zero(Some(12)), 12);
}

#[test]
fn only_the_counters_that_move_need_room() {
    let mut st = feed();
    let mut waits = Backoff::new(500, 30_000);
    st.stats.reconnects = u64::MAX;
    let mut s = BinanceSession::new(0);
    st.stats.resyncs = u64::MAX;
    st.stats.gaps = u64::MAX;
    assert!(s.can_count(&update(5, 6, &[]), &st.stats));
    assert!(matches!(s.on_depth(update(5, 6, &[]), &mut st, &mut waits, 0, 0), DepthReport::Kept));
    st.stats.resyncs = 0;
    st.stats.gaps = 0;
    st.stats.messages = u64::MAX;
    assert!(!s.can_count(&update(5, 6, &[]), &st.stats));
    let r = s.on_snapshot(snapshot(5), &mut st, &mut waits, 1);
    assert!(matches!(r, SnapshotReport::Installed { applied: 1, .. }));
    st.stats.messages = 0;
    st.stats.gaps = u64::MAX;
    assert!(s.can_count(&update(7, 7, &[]), &st.stats));
    assert!(!s.can_count(&update(8, 8, &[]), &st.stats));
    st.stats.resyncs = u64::MAX;
    assert!(s.can_count(&update(6, 6, &[]), &st.stats));
    assert!(!s.can_count(&update(7, 7, &[]), &st.stats));
    st.stats.reconnects = 0;
    end_attempt(&mut st, None);
    assert_eq!(st.stats.reconnects, 1);
    let mut other = FeedState::new("coindcx", "B-BTC_USDT".to_string());
    other.stats.resyncs = u64::MAX;
    let mut c = CoindcxSession::new(1, 1, 0);
    assert!(c.on_depth(&payload(&[], &[], None), &mut other, &mut waits, 0, 0).is_ok());
}
