use futures_util::task::noop_waker_ref;
use jjs_commons::multiwake::{multiwake, WaitResult};
use jjs_commons::poll::Poll;
use std::task::Waker;

#[test]
fn simple() {
    let (mut inner, tx, mut rx) = multiwake::<Waker>();
    // at start, rx would block
    assert_eq!(rx.poll_wait(&mut inner, noop_waker_ref()), Poll::Pending);
    tx.wake(&mut inner);
    // now rx should observe new generation
    assert_eq!(
        rx.poll_wait(&mut inner, noop_waker_ref()),
        Poll::Ready(WaitResult::NewGeneration)
    );
    // but next poll should block again
    assert_eq!(rx.poll_wait(&mut inner, noop_waker_ref()), Poll::Pending);
}

#[test]
fn multiple_notifications_are_observed_at_once() {
    let (mut inner, tx, mut rx) = multiwake::<Waker>();
    tx.wake(&mut inner);
    tx.wake(&mut inner);
    tx.wake(&mut inner);
    // first poll should succeed
    assert_eq!(
        rx.poll_wait(&mut inner, noop_waker_ref()),
        Poll::Ready(WaitResult::NewGeneration)
    );
    // but second poll should be pending
    assert_eq!(rx.poll_wait(&mut inner, noop_waker_ref()), Poll::Pending);
}

#[test]
fn every_receiver_observes_an_event() {
    let (mut inner, tx, mut rx1) = multiwake::<u8>();
    let mut rx2 = rx1;
    assert_eq!(rx1.poll_wait(&mut inner, &1), Poll::Pending);
    assert_eq!(rx2.poll_wait(&mut inner, &2), Poll::Pending);
    assert_eq!(tx.wake(&mut inner), vec![1, 2]);
    assert_eq!(tx.wake(&mut inner), Vec::<u8>::new());
    assert_eq!(rx1.poll_wait(&mut inner, &1), Poll::Ready(WaitResult::NewGeneration));
    assert_eq!(rx2.poll_wait(&mut inner, &2), Poll::Ready(WaitResult::NewGeneration));
    assert_eq!(rx2.poll_wait(&mut inner, &2), Poll::Pending);
}

#[test]
fn waiters_are_kept_until_the_next_event() {
    let (mut inner, tx1, mut rx) = multiwake::<u8>();
    let tx2 = tx1.clone(&mut inner);
    assert_eq!(inner.senders(), 2);
    assert_eq!(rx.poll_wait(&mut inner, &1), Poll::Pending);
    assert_eq!(rx.poll_wait(&mut inner, &2), Poll::Pending);
    assert_eq!(tx1.drop(&mut inner), Vec::<u8>::new());
    assert_eq!(inner.senders(), 1);
    assert_eq!(tx2.wake(&mut inner), vec![1, 2]);
}

#[test]
fn losing_the_last_sender_ends_the_wait() {
    let (mut inner, tx, mut rx) = multiwake::<u8>();
    assert!(inner.can_wake());
    assert!(inner.can_clone_sender());
    assert_eq!(rx.wait().poll(&mut inner, &1), Poll::Pending);
    assert_eq!(tx.drop(&mut inner), vec![1]);
    assert_eq!(rx.wait().poll(&mut inner, &1), Poll::Ready(WaitResult::Closed));
    assert_eq!(rx.poll_wait(&mut inner, &1), Poll::Ready(WaitResult::Closed));
}

#[test]
fn events_are_observed_even_if_all_senders_are_gone() {
    let (mut inner, tx, mut rx) = multiwake::<u8>();
    tx.wake(&mut inner);
    tx.drop(&mut inner);
    assert_eq!(rx.wait().poll(&mut inner, &1), Poll::Ready(WaitResult::NewGeneration));
    assert_eq!(rx.wait().poll(&mut inner, &1), Poll::Ready(WaitResult::Closed));
}
