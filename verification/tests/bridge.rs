use fs2db::bridge::{pump, pump_until, Bridge, Offer, Poll};

#[test]
fn pump_keeps_order_and_length() {
    let out = pump(vec![3, 1, 2, 2, 5]);
    assert_eq!(out, vec![3, 1, 2, 2, 5]);
}

#[test]
fn pump_of_nothing_gives_nothing() {
    let out: Vec<u8> = pump(vec![]);
    assert_eq!(out.len(), 0);
}

#[test]
fn consumer_that_leaves_gets_a_prefix_and_stops_the_producer() {
    let (out, accepted) = pump_until(vec![10, 20, 30, 40, 50], 2);
    assert_eq!(out, vec![10, 20]);
    assert_eq!(accepted, 2);
}

#[test]
fn consumer_that_wants_more_than_there_is_gets_all() {
    let (out, accepted) = pump_until(vec![10, 20, 30], 7);
    assert_eq!(out, vec![10, 20, 30]);
    assert_eq!(accepted, 3);
}

#[test]
fn consumer_that_wants_nothing_gets_nothing() {
    let (out, accepted) = pump_until(vec![10, 20, 30], 0);
    assert_eq!(out.len(), 0);
    assert_eq!(accepted, 0);
}

#[test]
fn at_most_one_item_waits() {
    let mut b: Bridge<&str> = Bridge::new();
    assert!(matches!(b.offer("a"), Offer::Accepted));
    assert!(matches!(b.offer("b"), Offer::Full("b")));
    assert!(matches!(b.poll(), Poll::Item("a")));
    assert!(matches!(b.offer("b"), Offer::Accepted));
    assert!(matches!(b.poll(), Poll::Item("b")));
    assert!(matches!(b.poll(), Poll::Pending));
    b.finish();
    assert!(matches!(b.poll(), Poll::Done));
}

#[test]
fn an_abandoned_bridge_refuses_at_once() {
    let mut b: Bridge<u8> = Bridge::new();
    assert!(matches!(b.offer(1), Offer::Accepted));
    b.abandon();
    assert!(matches!(b.offer(2), Offer::Closed(2)));
    assert!(matches!(b.offer(3), Offer::Closed(3)));
}

#[test]
fn done_comes_only_after_the_last_item() {
    let mut b: Bridge<u8> = Bridge::new();
    assert!(matches!(b.offer(9), Offer::Accepted));
    b.finish();
    assert!(matches!(b.poll(), Poll::Item(9)));
    assert!(matches!(b.poll(), Poll::Done));
}
