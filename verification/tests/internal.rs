//! The rounds that collect borrowed items, and what they are built on.

use futures_channel::oneshot::{channel, Receiver, Sender};
use futures::task::noop_waker;
use piscina::channel::{ask, ask_in_task, hand_back, ItemLost, Reply};
use piscina::heap::PriorityHeap;
use piscina::internal::{
    lend, poll_all_borrowed_and_push_back_ready, settle, try_recv_from_borrowed,
    try_recv_from_borrowed_or_lost, PoolStore,
};
use piscina::lease::Lease;
use piscina::priority::PriorityItem;
use std::cmp::Ordering;
use std::collections::{BinaryHeap, VecDeque};
use std::task::Context;

fn channels(count: usize) -> (Vec<Option<Sender<u32>>>, Vec<Receiver<u32>>) {
    let mut senders = Vec::new();
    let mut receivers = Vec::new();
    for _ in 0..count {
        let (tx, rx) = channel();
        senders.push(Some(tx));
        receivers.push(rx);
    }
    (senders, receivers)
}

/// Sends `item` through the sender at `i`.
fn send_at(senders: &mut [Option<Sender<u32>>], i: usize, item: u32) {
    let tx = senders[i].take().unwrap();
    assert_eq!(hand_back(tx, item), Ok(()));
}

#[test]
fn receiver_answers_for_its_sender() {
    let (tx, mut rx) = channel::<u32>();
    assert_eq!(ask(&mut rx), Reply::Waiting);
    assert_eq!(ask(&mut rx), Reply::Waiting);
    assert_eq!(hand_back(tx, 7), Ok(()));
    assert_eq!(ask(&mut rx), Reply::Returned(7));

    let (tx, mut rx) = channel::<u32>();
    drop(tx);
    assert_eq!(ask(&mut rx), Reply::Lost);
}

#[test]
fn receiver_answers_for_its_sender_in_a_task() {
    let waker = noop_waker();
    let mut cx = Context::from_waker(&waker);
    let (tx, mut rx) = channel::<u32>();
    assert_eq!(ask_in_task(&mut rx, &mut cx), Reply::Waiting);
    assert_eq!(hand_back(tx, 7), Ok(()));
    assert_eq!(ask_in_task(&mut rx, &mut cx), Reply::Returned(7));

    let (tx, mut rx) = channel::<u32>();
    drop(tx);
    assert_eq!(ask_in_task(&mut rx, &mut cx), Reply::Lost);
}

#[test]
fn sending_without_a_receiver_gives_the_item_back() {
    let (tx, rx) = channel::<u32>();
    drop(rx);
    assert_eq!(hand_back(tx, 7), Err(7));
}

#[test]
fn lease_sends_its_message_back_once() {
    let (tx, mut rx) = channel();
    let mut lease = Lease::new(1, tx);
    assert_eq!(lease.message(), &1);
    *lease.message_mut() = 2;
    assert_eq!(lease.release(), Some(Ok(())));
    assert_eq!(lease.release(), None);
    assert_eq!(ask(&mut rx), Reply::Returned(2));
}

#[test]
fn lease_without_a_pool_hands_its_message_out() {
    let (tx, rx) = channel();
    let mut lease = Lease::new(1, tx);
    drop(rx);
    assert_eq!(lease.release(), Some(Err(1)));
    assert_eq!(lease.release(), None);
}

#[test]
fn dropped_lease_sends_its_message_back() {
    let (tx, mut rx) = channel();
    drop(Lease::new(3, tx));
    assert_eq!(ask(&mut rx), Reply::Returned(3));
}

#[test]
fn settling_a_reply() {
    let mut ready = VecDeque::from(vec![1]);
    assert!(!settle(&mut ready, Reply::Returned(2)));
    assert_eq!(ready, VecDeque::from(vec![1, 2]));
    assert!(settle(&mut ready, Reply::Waiting));
    assert!(!settle(&mut ready, Reply::Lost));
    assert_eq!(ready, VecDeque::from(vec![1, 2]));
}

#[test]
fn round_over_no_receivers() {
    let mut ready = VecDeque::from(vec![1]);
    let mut borrowed: Vec<Receiver<u32>> = Vec::new();
    try_recv_from_borrowed(&mut ready, &mut borrowed);
    assert_eq!(try_recv_from_borrowed_or_lost(&mut ready, &mut borrowed), Ok(()));
    assert_eq!(ready, VecDeque::from(vec![1]));
    assert!(borrowed.is_empty());
}

#[test]
fn round_collects_what_came_back_and_drops_what_is_lost() {
    let (mut senders, mut borrowed) = channels(5);
    let mut ready = VecDeque::from(vec![10]);
    send_at(&mut senders, 3, 3);
    send_at(&mut senders, 0, 0);
    senders[2] = None;
    try_recv_from_borrowed(&mut ready, &mut borrowed);
    assert_eq!(ready, VecDeque::from(vec![10, 0, 3]));
    assert_eq!(borrowed.len(), 2);

    send_at(&mut senders, 4, 4);
    try_recv_from_borrowed(&mut ready, &mut borrowed);
    assert_eq!(ready, VecDeque::from(vec![10, 0, 3, 4]));
    assert_eq!(borrowed.len(), 1);
    send_at(&mut senders, 1, 1);
    assert_eq!(ask(&mut borrowed[0]), Reply::Returned(1));
}

#[test]
fn quiet_round_changes_nothing() {
    let (_senders, mut borrowed) = channels(3);
    let mut ready = VecDeque::from(vec![1]);
    try_recv_from_borrowed(&mut ready, &mut borrowed);
    assert_eq!(ready, VecDeque::from(vec![1]));
    assert_eq!(borrowed.len(), 3);
}

#[test]
fn strict_round_collects_what_came_back() {
    let (mut senders, mut borrowed) = channels(3);
    let mut ready = VecDeque::new();
    send_at(&mut senders, 2, 2);
    assert_eq!(try_recv_from_borrowed_or_lost(&mut ready, &mut borrowed), Ok(()));
    assert_eq!(ready, VecDeque::from(vec![2]));
    assert_eq!(borrowed.len(), 2);
}

#[test]
fn strict_round_stops_at_the_first_loss() {
    let (mut senders, mut borrowed) = channels(4);
    let mut ready = VecDeque::new();
    send_at(&mut senders, 0, 0);
    senders[2] = None;
    send_at(&mut senders, 3, 3);
    assert_eq!(try_recv_from_borrowed_or_lost(&mut ready, &mut borrowed), Err(ItemLost));
    assert_eq!(ready, VecDeque::from(vec![0]));
    assert_eq!(borrowed.len(), 3);
    assert_eq!(ask(&mut borrowed[0]), Reply::Waiting);
    assert_eq!(ask(&mut borrowed[1]), Reply::Lost);
    assert_eq!(ask(&mut borrowed[2]), Reply::Returned(3));
}

#[test]
fn polled_round_collects_what_came_back() {
    let waker = noop_waker();
    let mut cx = Context::from_waker(&waker);
    let (mut senders, mut borrowed) = channels(3);
    let mut ready = VecDeque::new();
    send_at(&mut senders, 1, 1);
    let outcome = poll_all_borrowed_and_push_back_ready(&mut ready, &mut borrowed, &mut cx);
    assert_eq!(outcome, Ok(()));
    assert_eq!(ready, VecDeque::from(vec![1]));
    assert_eq!(borrowed.len(), 2);
}

#[test]
fn polled_round_stops_at_the_first_loss() {
    let waker = noop_waker();
    let mut cx = Context::from_waker(&waker);
    let (mut senders, mut borrowed) = channels(3);
    let mut ready = VecDeque::new();
    senders[0] = None;
    send_at(&mut senders, 1, 1);
    let outcome = poll_all_borrowed_and_push_back_ready(&mut ready, &mut borrowed, &mut cx);
    assert_eq!(outcome, Err(ItemLost));
    assert!(ready.is_empty());
    assert_eq!(borrowed.len(), 3);
}

#[test]
fn loan_goes_back_through_its_own_receiver() {
    let mut ready = VecDeque::from(vec![1, 2]);
    let mut borrowed = Vec::new();
    let loan = lend(&mut ready, &mut borrowed).unwrap();
    assert_eq!(loan.message, 1);
    assert_eq!(ready, VecDeque::from(vec![2]));
    assert_eq!(borrowed.len(), 1);
    assert_eq!(hand_back(loan.sender, 5), Ok(()));
    assert_eq!(ask(&mut borrowed[0]), Reply::Returned(5));

    let mut none: VecDeque<u32> = VecDeque::new();
    assert!(lend(&mut none, &mut borrowed).is_none());
    assert_eq!(borrowed.len(), 1);
}

#[test]
fn store_of_a_regular_pool_is_first_in_first_out() {
    let mut store = VecDeque::new();
    PoolStore::push(&mut store, 1);
    PoolStore::push(&mut store, 2);
    assert_eq!(PoolStore::pop(&mut store), Some(1));
    assert_eq!(PoolStore::pop(&mut store), Some(2));
    assert_eq!(PoolStore::pop(&mut store), None);
}

#[test]
fn heap_pops_an_item_of_the_highest_priority() {
    let mut heap = PriorityHeap::with_capacity(4);
    for priority in [3, 1, 4, 1, 5, 9, 2, 6, 5, 3, 5] {
        heap.push(PriorityItem::new(priority * 10, priority));
    }
    assert_eq!(heap.len(), 11);
    heap.shrink_to_fit();
    let mut priorities = Vec::new();
    while let Some(entry) = heap.pop() {
        assert_eq!(entry.item, entry.priority * 10);
        priorities.push(entry.priority);
    }
    assert_eq!(priorities, vec![9, 6, 5, 5, 5, 4, 3, 3, 2, 1, 1]);
    assert_eq!(heap.len(), 0);
}

#[test]
fn heap_keeps_its_order_between_pushes_and_pops() {
    let mut heap = PriorityHeap::new();
    heap.push(PriorityItem::new('a', 2));
    heap.push(PriorityItem::new('b', 5));
    assert_eq!(heap.pop().map(|entry| entry.item), Some('b'));
    heap.push(PriorityItem::new('c', 1));
    heap.push(PriorityItem::new('d', 3));
    assert_eq!(heap.pop().map(|entry| entry.item), Some('d'));
    assert_eq!(heap.pop().map(|entry| entry.item), Some('a'));
    assert_eq!(heap.pop().map(|entry| entry.item), Some('c'));
    assert!(heap.pop().is_none());
}

/// An item that the standard heap orders by its first field alone.
struct Entry(u32, u32);

impl PartialEq for Entry {
    fn eq(&self, other: &Self) -> bool {
        self.0 == other.0
    }
}

impl Eq for Entry {}

impl PartialOrd for Entry {
    fn partial_cmp(&self, other: &Self) -> Option<Ordering> {
        Some(self.cmp(other))
    }
}

impl Ord for Entry {
    fn cmp(&self, other: &Self) -> Ordering {
        self.0.cmp(&other.0)
    }
}

#[test]
fn heap_pops_in_the_order_of_the_standard_heap() {
    let mut heap = PriorityHeap::new();
    let mut standard = BinaryHeap::new();
    let mut seed: u32 = 1;
    for item in 0..200 {
        seed = (seed * 37 + 5) % 1009;
        let priority = seed % 6;
        heap.push(PriorityItem::new(item, priority));
        standard.push(Entry(priority, item));
        if seed % 3 == 0 {
            let expected = standard.pop().map(|entry| (entry.0, entry.1));
            assert_eq!(heap.pop().map(|entry| (entry.priority, entry.item)), expected);
        }
    }
    while let Some(entry) = standard.pop() {
        assert_eq!(heap.pop().map(|entry| (entry.priority, entry.item)), Some((entry.0, entry.1)));
    }
    assert!(heap.pop().is_none());
}

#[test]
fn heap_is_shown_as_a_list() {
    let mut heap = PriorityHeap::new();
    heap.push(PriorityItem::new('a', 1));
    assert_eq!(format!("{:?}", heap), "[PriorityItem { priority: 1, item: 'a' }]");
}
