use futures_util::task::noop_waker_ref;
use jjs_commons::cancel::{CancellationToken, State, TokenForest};
use jjs_commons::poll::Poll;
use std::task::Waker;

fn will_wake(a: &Waker, b: &Waker) -> bool {
    a.will_wake(b)
}

fn equal(a: &u32, b: &u32) -> bool {
    a == b
}

#[test]
fn lib_test_simple() {
    let mut forest = TokenForest::<Waker>::new();
    let parent = CancellationToken::new(&mut forest);
    assert!(!parent.is_cancelled(&forest));

    let child = parent.child_token(&mut forest);
    assert!(!child.is_cancelled(&forest));
    child.cancel(&mut forest);
    assert!(child.is_cancelled(&forest));
    let mut future = child.cancelled();
    assert_eq!(future.poll(&mut forest, noop_waker_ref(), will_wake), Poll::Ready(()));
    assert!(!parent.is_cancelled(&forest));
    parent.cancel(&mut forest);
    assert!(parent.is_cancelled(&forest));
    let mut future = parent.cancelled();
    assert_eq!(future.poll(&mut forest, noop_waker_ref(), will_wake), Poll::Ready(()));
}

#[test]
fn cancelling_wakes_each_waiter_below_once() {
    let mut forest = TokenForest::<u32>::new();
    let root = CancellationToken::new(&mut forest);
    let first = root.child_token(&mut forest);
    let other = CancellationToken::new(&mut forest);
    let second = root.child_token(&mut forest);
    let grandchild = first.child_token(&mut forest);
    for (token, waker) in [(second, 4), (grandchild, 3), (other, 9), (root, 1), (first, 2)] {
        let mut future = token.cancelled();
        assert_eq!(future.poll(&mut forest, &waker, equal), Poll::Pending);
    }
    assert_eq!(root.cancel(&mut forest), vec![1, 2, 3, 4]);
    for token in [root, first, second, grandchild] {
        assert!(token.is_cancelled(&forest));
    }
    assert!(!other.is_cancelled(&forest));
    assert_eq!(root.cancel(&mut forest), Vec::<u32>::new());
    assert_eq!(other.cancel(&mut forest), vec![9]);
}

#[test]
fn child_of_cancelled_token_is_cancelled() {
    let mut forest = TokenForest::<u32>::new();
    let parent = CancellationToken::new(&mut forest);
    parent.cancel(&mut forest);
    let child = parent.child_token(&mut forest);
    assert!(child.is_cancelled(&forest));
    let mut future = child.cancelled();
    assert_eq!(future.poll(&mut forest, &1, equal), Poll::Ready(()));
}

#[test]
fn cancelled_part_wakes_nobody_again() {
    let mut forest = TokenForest::<u32>::new();
    let parent = CancellationToken::new(&mut forest);
    let child = parent.child_token(&mut forest);
    let mut future = child.cancelled();
    assert_eq!(future.poll(&mut forest, &1, equal), Poll::Pending);
    assert_eq!(child.cancel(&mut forest), vec![1]);
    assert_eq!(parent.cancel(&mut forest), Vec::<u32>::new());
}

#[test]
fn same_waker_is_registered_once() {
    let mut forest = TokenForest::<u32>::new();
    let token = CancellationToken::new(&mut forest);
    let mut future = token.cancelled();
    for _ in 0..3 {
        assert_eq!(future.poll(&mut forest, &5, equal), Poll::Pending);
    }
    assert!(token.accepts_waiter(&forest));
    assert_eq!(token.cancel(&mut forest), vec![5]);
}

#[test]
fn changed_waker_replaces_the_earlier_one() {
    let mut forest = TokenForest::<u32>::new();
    let token = CancellationToken::new(&mut forest);
    let mut future = token.cancelled();
    assert_eq!(future.last_waker(), None);
    assert_eq!(future.poll(&mut forest, &5, equal), Poll::Pending);
    assert_eq!(future.poll(&mut forest, &6, equal), Poll::Pending);
    assert_eq!(future.poll_compared(&mut forest, &6, true), Poll::Pending);
    assert_eq!(future.last_waker(), Some(&6));
    assert_eq!(future.poll_compared(&mut forest, &7, false), Poll::Pending);
    assert_eq!(future.last_waker(), Some(&7));
    assert_eq!(token.cancel(&mut forest), vec![7]);
    assert_eq!(future.poll(&mut forest, &8, equal), Poll::Ready(()));
}

#[test]
fn changed_waker_leaves_other_futures_alone() {
    let mut forest = TokenForest::<u32>::new();
    let token = CancellationToken::new(&mut forest);
    let mut first = token.cancelled();
    let mut second = token.cancelled();
    assert_eq!(first.poll(&mut forest, &1, equal), Poll::Pending);
    assert_eq!(second.poll(&mut forest, &1, equal), Poll::Pending);
    for waker in 2..100 {
        assert_eq!(first.poll(&mut forest, &waker, equal), Poll::Pending);
    }
    assert_eq!(token.cancel(&mut forest), vec![1, 99]);
}

#[test]
fn cleanup_of_fresh_state_does_nothing() {
    let mut state = State::<u32>::new();
    state.maybe_cleanup(None);
    state.maybe_cleanup(Some(0));
}

#[test]
fn every_waiting_future_is_woken_with_its_latest_waker() {
    let mut forest = TokenForest::<u32>::new();
    let parent = CancellationToken::new(&mut forest);
    let child = parent.child_token(&mut forest);
    let mut futures = vec![parent.cancelled(), child.cancelled(), parent.cancelled()];
    for round in 0..4 {
        for (i, future) in futures.iter_mut().enumerate() {
            let waker = 10 * round + i as u32;
            assert_eq!(future.poll(&mut forest, &waker, equal), Poll::Pending);
        }
        let late = parent.child_token(&mut forest);
        assert!(!late.is_cancelled(&forest));
    }
    assert_eq!(parent.cancel(&mut forest), vec![30, 32, 31]);
    for future in futures.iter_mut() {
        assert_eq!(future.poll(&mut forest, &99, equal), Poll::Ready(()));
    }
}

#[test]
fn token_is_cancelled_by_those_above_only() {
    let mut forest = TokenForest::<u32>::new();
    let root = CancellationToken::new(&mut forest);
    let left = root.child_token(&mut forest);
    let right = root.child_token(&mut forest);
    let below_left = left.child_token(&mut forest);
    left.cancel(&mut forest);
    let late = below_left.child_token(&mut forest);
    let other = CancellationToken::new(&mut forest);
    for (token, expected) in [
        (root, false),
        (left, true),
        (right, false),
        (below_left, true),
        (late, true),
        (other, false),
    ] {
        assert_eq!(token.is_cancelled(&forest), expected);
    }
}
