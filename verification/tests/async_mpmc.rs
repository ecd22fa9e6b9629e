use futures_util::task::noop_waker_ref;
use jjs_commons::async_mpmc::{channel, Item, Queue, Receiver, Step};
use jjs_commons::poll::Poll;
use std::task::Waker;

fn recv(rx: &Receiver, queue: &mut Queue<u8, Waker>) -> Option<Item<u8>> {
    match rx.recv(queue, noop_waker_ref()) {
        Poll::Ready(item) => item,
        Poll::Pending => panic!("channel is empty"),
    }
}

#[test]
fn lib_simple() {
    let (mut queue, tx1, rx1) = channel::<u8, Waker>();
    let tx2 = tx1.clone(&mut queue);
    let rx2 = rx1;
    tx1.send(&mut queue, 1);
    tx2.send(&mut queue, 2);
    tx1.send(&mut queue, 57);

    // check that order is FIFO
    assert_eq!(recv(&rx2, &mut queue).unwrap().value, 1);
    assert_eq!(recv(&rx1, &mut queue).unwrap().value, 2);

    tx1.drop(&mut queue);
    tx2.drop(&mut queue);

    {
        let mut first_call = true;
        while let Poll::Ready(Step::Process { value: message, .. }) =
            rx1.process_all(&mut queue, noop_waker_ref())
        {
            assert_eq!(message, 57);
            assert!(first_call);
            first_call = false;
        }
        assert!(!first_call);
    }
    if let Poll::Ready(Step::Process { .. }) = rx2.process_all(&mut queue, noop_waker_ref()) {
        unreachable!();
    }
    assert!(matches!(rx2.process_all(&mut queue, noop_waker_ref()), Poll::Ready(Step::Stop)));
}

#[test]
fn receivers_are_woken_one_per_item_in_order() {
    let (mut queue, tx, rx) = channel::<u8, u32>();
    assert!(matches!(rx.poll_recv(&mut queue, &1), Poll::Pending));
    assert!(matches!(rx.poll_recv(&mut queue, &2), Poll::Pending));
    assert_eq!(tx.send(&mut queue, 10), Some(1));
    assert_eq!(tx.send(&mut queue, 11), Some(2));
    assert_eq!(tx.send(&mut queue, 12), None);
}

#[test]
fn last_sender_wakes_all_receivers() {
    let (mut queue, tx1, rx) = channel::<u8, u32>();
    let tx2 = tx1.clone(&mut queue);
    assert!(queue.can_clone_sender());
    assert!(matches!(rx.poll_recv(&mut queue, &1), Poll::Pending));
    assert!(matches!(rx.poll_recv(&mut queue, &2), Poll::Pending));
    assert!(tx1.drop(&mut queue).is_empty());
    assert!(!queue.senders_closed());
    assert_eq!(tx2.drop(&mut queue), [1, 2]);
    assert!(queue.senders_closed());
    assert!(matches!(rx.poll_recv(&mut queue, &1), Poll::Ready(None)));
}

#[test]
fn items_outlive_their_senders() {
    let (mut queue, tx, rx) = channel::<u8, u32>();
    tx.send(&mut queue, 1);
    tx.send(&mut queue, 2);
    tx.drop(&mut queue);
    for expected in [1, 2] {
        match rx.poll_recv(&mut queue, &7) {
            Poll::Ready(Some(item)) => assert_eq!(item.value, expected),
            _ => panic!("an item is missing"),
        }
    }
    assert!(matches!(rx.poll_recv(&mut queue, &7), Poll::Ready(None)));
}

#[test]
fn items_are_processed_in_the_span_they_were_sent_in() {
    let (mut queue, tx, rx) = channel::<u8, u32>();
    tx.send_in_span(&mut queue, 5, tracing::Span::none());
    match rx.process_all(&mut queue, &7) {
        Poll::Ready(Step::Process { value, span }) => {
            assert_eq!(value, 5);
            assert!(span.is_none());
        }
        _ => panic!("there was an item"),
    }
    assert!(matches!(rx.process_all(&mut queue, &7), Poll::Pending));
    assert_eq!(tx.send(&mut queue, 6), Some(7));
}

#[test]
fn receivers_share_what_was_sent() {
    let (mut queue, tx1, rx1) = channel::<u8, u32>();
    let tx2 = tx1.clone(&mut queue);
    let rx2 = rx1;
    let mut received = Vec::new();
    for round in 0..10 {
        tx1.send(&mut queue, 3 * round);
        tx2.send(&mut queue, 3 * round + 1);
        let rx = if round % 3 == 0 { rx1 } else { rx2 };
        if let Poll::Ready(Some(item)) = rx.recv(&mut queue, &1) {
            received.push(item.value);
        }
    }
    tx1.drop(&mut queue);
    tx2.drop(&mut queue);
    while let Poll::Ready(Some(item)) = rx1.recv(&mut queue, &1) {
        received.push(item.value);
    }
    let sent: Vec<u8> = (0..30).filter(|n| n % 3 != 2).collect();
    assert_eq!(received, sent);
}
