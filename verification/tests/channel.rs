#![allow(unused_mut)]

use market_aggregator::channel::{bounded, ChannelMetrics, OfferOutcome, Received, SendOutcome};

#[test]
fn send_never_needs_a_runtime() {
    let mut tx = bounded::<u32>(4);
    assert_eq!(tx.send(1), SendOutcome::Sent);
    assert_eq!(tx.send(2), SendOutcome::Sent);
}

#[test]
fn items_are_delivered_fifo_under_capacity() {
    let mut tx = bounded::<u32>(4);
    for i in 1..=3 {
        assert_eq!(tx.send(i), SendOutcome::Sent);
    }
    let drained: Vec<u32> = std::iter::from_fn(|| tx.try_recv()).collect();
    assert_eq!(drained, vec![1, 2, 3]);
}

#[test]
fn overflow_evicts_the_oldest_not_the_newest() {
    let mut tx = bounded::<u32>(2);
    assert_eq!(tx.send(1), SendOutcome::Sent);
    assert_eq!(tx.send(2), SendOutcome::Sent);
    assert_eq!(tx.send(3), SendOutcome::DroppedOldest(1));

    let drained: Vec<u32> = std::iter::from_fn(|| tx.try_recv()).collect();
    assert_eq!(
        drained,
        vec![2, 3],
        "newest item was lost instead of oldest"
    );
}

#[test]
fn dropped_counter_tracks_every_eviction_exactly() {
    let mut tx = bounded::<u32>(1);
    assert_eq!(tx.metrics().dropped, 0);

    assert_eq!(tx.send(1), SendOutcome::Sent);
    assert_eq!(
        tx.metrics().dropped,
        0,
        "first send filled the channel, nothing evicted yet"
    );

    for i in 2..=5u32 {
        tx.send(i);
    }
    assert_eq!(
        tx.metrics().dropped,
        4,
        "four overflowing sends into a capacity-1 channel should drop exactly four"
    );
}

#[test]
fn metrics_reports_len_and_capacity() {
    let mut tx = bounded::<u32>(3);
    assert_eq!(
        tx.metrics(),
        ChannelMetrics {
            len: 0,
            capacity: 3,
            dropped: 0
        }
    );

    tx.send(1);
    tx.send(2);
    assert_eq!(
        tx.metrics(),
        ChannelMetrics {
            len: 2,
            capacity: 3,
            dropped: 0
        }
    );

    tx.try_recv();
    assert_eq!(
        tx.metrics().len,
        1,
        "receiver and sender must observe the same queue"
    );
}

#[test]
fn recv_returns_none_after_close_once_drained() {
    let mut tx = bounded::<u32>(4);
    tx.send(1);
    tx.close();

    assert_eq!(tx.recv(), Received::Item(1));
    assert_eq!(tx.recv(), Received::Ended);
    assert_eq!(tx.send(2), SendOutcome::Closed(2));
}

#[test]
fn last_sender_drop_closes_the_channel() {
    let mut tx = bounded::<u32>(4);
    tx.add_sender();

    tx.drop_sender();
    assert_eq!(
        tx.recv(),
        Received::Waiting,
        "channel closed early while a sender clone was still live"
    );

    tx.drop_sender();
    assert!(tx.is_closed());
    assert_eq!(tx.recv(), Received::Ended);
}

#[test]
fn concurrent_producers_conserve_every_item_sent_or_counted_as_dropped() {
    const PRODUCERS: u32 = 8;
    const PER_PRODUCER: u32 = 200;
    let mut tx = bounded::<(u32, u32)>(16);

    for i in 0..PER_PRODUCER {
        for p in 0..PRODUCERS {
            tx.send((p, i));
        }
    }
    let dropped = tx.metrics().dropped;
    tx.drop_sender();

    let mut received = 0u64;
    while let Received::Item(_) = tx.recv() {
        received += 1;
    }

    let total_sent = u64::from(PRODUCERS) * u64::from(PER_PRODUCER);
    assert_eq!(
        received + dropped,
        total_sent,
        "received ({received}) + dropped ({dropped}) must equal total sent ({total_sent})"
    );
}

#[test]
fn an_offer_waits_rather_than_dropping() {
    let mut tx = bounded::<u32>(1);
    assert_eq!(tx.offer(1), OfferOutcome::Sent);
    assert_eq!(tx.offer(2), OfferOutcome::Full(2));
    assert_eq!(tx.metrics().dropped, 0);
    assert_eq!(tx.try_recv(), Some(1));
    tx.close();
    assert_eq!(tx.offer(3), OfferOutcome::Closed(3));
}
