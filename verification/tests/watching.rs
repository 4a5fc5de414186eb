//! Watching a locker change.

use crossbank::watch::{Watchers, DEFAULT_CAPACITY};
use crossbank::Event;


fn put(key: &str) -> Event {
    Event::Put {
        key: key.as_bytes().to_vec(),
    }
}

fn filter(keys: &[&str]) -> Option<Vec<Vec<u8>>> {
    Some(keys.iter().map(|k| k.as_bytes().to_vec()).collect())
}

#[test]
fn a_subscriber_receives_events_in_order() {
    let mut w = Watchers::new();
    let mut rx = w.subscribe(None, DEFAULT_CAPACITY);

    w.broadcast(&put("a"));
    w.broadcast(&put("b"));

    assert_eq!(rx.try_recv(), Some(put("a")));
    assert_eq!(rx.try_recv(), Some(put("b")));
}

#[test]
fn a_key_filter_excludes_other_keys() {
    let mut w = Watchers::new();
    let mut rx = w.subscribe(filter(&["wanted"]), DEFAULT_CAPACITY);

    w.broadcast(&put("ignored"));
    w.broadcast(&put("wanted"));

    assert_eq!(rx.try_recv(), Some(put("wanted")));
}

#[test]
fn a_key_filter_still_receives_cleared() {
    // A clear affects every key, so a per-key subscriber must hear about it
    // or it will keep believing a value it no longer has.
    let mut w = Watchers::new();
    let mut rx = w.subscribe(filter(&["k"]), DEFAULT_CAPACITY);

    w.broadcast(&Event::Cleared);
    assert_eq!(rx.try_recv(), Some(Event::Cleared));
}

#[test]
fn a_slow_subscriber_is_told_how_much_it_missed() {
    // The alternative — an unbounded queue — is an out-of-memory abort.
    let mut w = Watchers::new();
    let mut rx = w.subscribe(None, 2);

    for i in 0..10 {
        w.broadcast(&put(&format!("k{i}")));
    }

    // Drain what fitted.
    let mut seen = Vec::new();
    while let Some(event) = rx.try_recv() {
        seen.push(event);
    }
    assert!(!seen.is_empty(), "some events should have got through");

    // The next successful delivery must be preceded by a gap notice.
    w.broadcast(&put("later"));
    let next = rx.try_recv().unwrap();
    match next {
        Event::Lagged { skipped } => assert!(skipped > 0),
        other => panic!("expected a Lagged notice first, got {other:?}"),
    }
}

#[test]
fn a_dropped_receiver_is_pruned() {
    let mut w = Watchers::new();
    let rx = w.subscribe(None, DEFAULT_CAPACITY);
    assert_eq!(w.count(), 1);

    drop(rx);
    w.broadcast(&put("a"));
    assert_eq!(w.count(), 0, "a dead subscriber must not be kept forever");
}

#[test]
fn broadcasting_with_no_subscribers_is_harmless() {
    let mut w = Watchers::new();
    w.broadcast(&put("a"));
    w.broadcast(&Event::Cleared);
}

#[test]
fn several_subscribers_each_get_a_copy() {
    let mut w = Watchers::new();
    let mut a = w.subscribe(None, DEFAULT_CAPACITY);
    let mut b = w.subscribe(None, DEFAULT_CAPACITY);

    w.broadcast(&put("k"));

    assert_eq!(a.try_recv(), Some(put("k")));
    assert_eq!(b.try_recv(), Some(put("k")));
}

#[test]
fn event_key_reports_only_where_it_makes_sense() {
    assert_eq!(put("k").key(), Some("k"));
    assert_eq!(Event::Deleted { key: b"k".to_vec() }.key(), Some("k"));
    assert_eq!(Event::Cleared.key(), None);
    assert_eq!(Event::Lagged { skipped: 3 }.key(), None);
}

#[test]
fn a_binary_key_has_bytes_but_no_utf8_view() {
    // key() must not panic or lie about a key it cannot spell.
    let e = Event::Put {
        key: vec![0xFF, 0x00],
    };
    assert_eq!(e.key_bytes(), &[0xFF, 0x00]);
    assert_eq!(e.key(), None);
    assert_eq!(Event::Cleared.key_bytes(), b"");
}

#[test]
fn a_multi_key_filter_passes_any_of_its_keys() {
    let mut w = Watchers::new();
    let mut rx = w.subscribe(filter(&["a", "b"]), DEFAULT_CAPACITY);

    w.broadcast(&put("c"));
    w.broadcast(&put("b"));
    w.broadcast(&put("a"));

    assert_eq!(rx.try_recv(), Some(put("b")));
    assert_eq!(rx.try_recv(), Some(put("a")));
}
