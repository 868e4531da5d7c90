//! The pool of items with priorities.

use futures::executor::block_on;
use futures::task::noop_waker;
use piscina::channel::ItemLost;
use piscina::priority::{PooledItem, PriorityItem};
use piscina::PriorityPool;
use std::future::poll_fn;
use std::mem::ManuallyDrop;
use std::sync::atomic::{AtomicUsize, Ordering};
use std::sync::Arc;
use std::task::{Context, Poll, Wake, Waker};

/// The value, which must be there.
fn assert_some<V>(value: Option<V>) -> V {
    match value {
        Some(value) => value,
        None => panic!("expected Some, got None"),
    }
}

fn assert_none<V>(value: Option<V>) {
    if value.is_some() {
        panic!("expected None, got Some");
    }
}

/// The outcome of a poll, which must be ready.
fn assert_ready<V>(outcome: Result<Option<V>, ItemLost>) -> V {
    match outcome {
        Ok(Some(value)) => value,
        Ok(None) => panic!("expected Ready, got Pending"),
        Err(ItemLost) => panic!("an item was lost"),
    }
}

fn assert_pending<V>(outcome: Result<Option<V>, ItemLost>) {
    match outcome {
        Ok(Some(_)) => panic!("expected Pending, got Ready"),
        Ok(None) => {}
        Err(ItemLost) => panic!("an item was lost"),
    }
}

/// Polls a new request for an item once, in a task that nothing wakes.
fn poll_get<T, P: Ord>(pool: &mut PriorityPool<T, P>) -> Result<Option<PooledItem<T, P>>, ItemLost> {
    let waker = noop_waker();
    let mut cx = Context::from_waker(&waker);
    pool.get().poll(&mut cx)
}

/// Polls a new request to remove an item once, in a task that nothing wakes.
fn poll_pop<T, P: Ord>(pool: &mut PriorityPool<T, P>) -> Result<Option<(T, P)>, ItemLost> {
    let waker = noop_waker();
    let mut cx = Context::from_waker(&waker);
    pool.pop().poll(&mut cx)
}

/// Makes attempts until one yields an item.
fn blocking_get<T, P: Ord>(pool: &mut PriorityPool<T, P>) -> PooledItem<T, P> {
    loop {
        match pool.get_or_lost() {
            Ok(Some(item)) => return item,
            Ok(None) => std::hint::spin_loop(),
            Err(ItemLost) => panic!("an item was lost"),
        }
    }
}

/// Makes attempts until one yields an item to remove.
fn blocking_pop<T, P: Ord>(pool: &mut PriorityPool<T, P>) -> (T, P) {
    loop {
        match pool.pop_or_lost() {
            Ok(Some(item)) => return item,
            Ok(None) => std::hint::spin_loop(),
            Err(ItemLost) => panic!("an item was lost"),
        }
    }
}

/// Waits for an item.
async fn get<T, P: Ord>(pool: &mut PriorityPool<T, P>) -> PooledItem<T, P> {
    let mut request = pool.get();
    poll_fn(|cx| match request.poll(cx) {
        Ok(Some(item)) => Poll::Ready(item),
        Ok(None) => Poll::Pending,
        Err(ItemLost) => panic!("an item was lost"),
    })
    .await
}

/// Waits for an item to remove.
async fn pop<T, P: Ord>(pool: &mut PriorityPool<T, P>) -> (T, P) {
    let mut request = pool.pop();
    poll_fn(|cx| match request.poll(cx) {
        Ok(Some(item)) => Poll::Ready(item),
        Ok(None) => Poll::Pending,
        Err(ItemLost) => panic!("an item was lost"),
    })
    .await
}

/// A waker that counts how often it is woken.
struct Count(AtomicUsize);

impl Wake for Count {
    fn wake(self: Arc<Self>) {
        self.0.fetch_add(1, Ordering::SeqCst);
    }
}

#[test]
fn create_priority_pool() {
    let pool = PriorityPool::<String, u32>::new();
    assert_eq!(pool.len(), 0);
}

#[test]
fn create_priority_pool_with_capacity() {
    let pool = PriorityPool::<String, u32>::with_capacity(10);
    assert_eq!(pool.len(), 0);
}

#[test]
fn priority_pool_len_does_not_change_after_borrowing_item() {
    let mut pool = PriorityPool::<&str, u32>::new();
    pool.put("hello", 1);
    assert_eq!(pool.len(), 1);
    let _item = blocking_get(&mut pool);
    assert_eq!(pool.len(), 1);
}

#[test]
fn priority_try_get_from_empty_pool_returns_none() {
    let mut pool = PriorityPool::<&str, u32>::new();
    assert_none(pool.try_get());
}

#[test]
fn priority_try_get_from_non_empty_pool_returns_some() {
    let mut pool = PriorityPool::<&str, u32>::new();
    pool.put("hello", 1);
    assert_some(pool.try_get());
}

#[test]
fn priority_try_get_after_dropping_borrowed_item_returns_some() {
    let mut pool = PriorityPool::<&str, u32>::new();
    pool.put("hello", 1);
    let item = blocking_get(&mut pool);
    drop(item);
    assert_some(pool.try_get());
}

#[test]
fn priority_try_get_after_dropping_borrowed_item_and_putting_new_item_returns_some() {
    let mut pool = PriorityPool::<&str, u32>::new();
    assert_none(pool.try_get());

    pool.put("hello", 1);
    let item = assert_some(pool.try_get());
    assert_none(pool.try_get());

    drop(item);
    assert_some(pool.try_get());

    pool.put("world", 1);
    assert_some(pool.try_get());
}

#[test]
fn try_get_returns_highest_priority_item() {
    let mut pool = PriorityPool::<&str, u32>::new();
    pool.put("hello", 5);
    pool.put("world", 6);
    pool.put("foo", 4);
    pool.put("bar", 3);

    let item = assert_some(pool.try_get());
    assert_eq!(item.item(), &"world");

    let item = assert_some(pool.try_get());
    assert_eq!(item.item(), &"hello");

    let item = assert_some(pool.try_get());
    assert_eq!(item.item(), &"foo");

    let item = assert_some(pool.try_get());
    assert_eq!(item.item(), &"bar");
}

#[test]
fn try_get_after_dropping_borrowed_item_returns_highest_priority_item() {
    let mut pool = PriorityPool::<&str, u32>::new();
    pool.put("hello", 5);
    pool.put("world", 6);
    pool.put("foo", 4);
    pool.put("bar", 3);

    let world = assert_some(pool.try_get());
    assert_eq!(world.item(), &"world");

    let hello = assert_some(pool.try_get());
    assert_eq!(hello.item(), &"hello");

    drop(world);
    let next_item = assert_some(pool.try_get());
    assert_eq!(next_item.item(), &"world");

    let item = assert_some(pool.try_get());
    assert_eq!(item.item(), &"foo");

    drop(hello);
    let next_item = assert_some(pool.try_get());
    assert_eq!(next_item.item(), &"hello");

    let item = assert_some(pool.try_get());
    assert_eq!(item.item(), &"bar");
}

#[test]
fn priority_blocking_get_from_non_empty_pool_returns_item() {
    let mut pool = PriorityPool::<&str, u32>::new();
    pool.put("hello", 1);
    let item = blocking_get(&mut pool);
    assert_eq!(item.item(), &"hello");
}

#[test]
fn priority_try_pop_from_empty_pool_returns_none() {
    let mut pool = PriorityPool::<&str, u32>::new();
    assert_none(pool.try_pop());
}

#[test]
fn priority_try_pop_reduce_len_by_one() {
    let mut pool = PriorityPool::<&str, u32>::new();
    pool.put("hello", 1);
    assert_some(pool.try_pop());
    assert_eq!(pool.len(), 0);
}

#[test]
fn try_pop_highest_priority_item() {
    let mut pool = PriorityPool::<&str, u32>::new();
    pool.put("hello", 5);
    pool.put("world", 6);
    pool.put("foo", 4);
    pool.put("bar", 3);

    let (item, _) = assert_some(pool.try_pop());
    assert_eq!(item, "world");

    let (item, _) = assert_some(pool.try_pop());
    assert_eq!(item, "hello");

    let (item, _) = assert_some(pool.try_pop());
    assert_eq!(item, "foo");

    let (item, _) = assert_some(pool.try_pop());
    assert_eq!(item, "bar");
}

#[test]
fn try_pop_after_dropping_borrowed_item_returns_highest_priority_item() {
    let mut pool = PriorityPool::<&str, u32>::new();
    pool.put("hello", 5);
    pool.put("world", 6);
    pool.put("foo", 4);
    pool.put("bar", 3);

    let world = assert_some(pool.try_get());
    assert_eq!(world.item(), &"world");

    let hello = assert_some(pool.try_get());
    assert_eq!(hello.item(), &"hello");

    drop(world);
    let (next_item, _) = assert_some(pool.try_pop());
    assert_eq!(next_item, "world");

    let (item, _) = assert_some(pool.try_pop());
    assert_eq!(item, "foo");

    drop(hello);
    let (next_item, _) = assert_some(pool.try_pop());
    assert_eq!(next_item, "hello");

    let (item, _) = assert_some(pool.try_pop());
    assert_eq!(item, "bar");
}

#[test]
fn priority_poll_get_from_empty_pool_returns_pending() {
    let mut pool = PriorityPool::<&str, u32>::new();
    assert_pending(poll_get(&mut pool));
}

#[test]
fn priority_poll_get_from_pool_of_one_item_returns_ready() {
    let mut pool = PriorityPool::<&str, u32>::new();
    pool.put("hello", 1);
    let item = assert_ready(poll_get(&mut pool));
    assert_eq!(item.item(), &"hello");
}

#[test]
fn priority_poll_get_from_exhausted_pool_returns_pending() {
    let mut pool = PriorityPool::<&str, u32>::new();
    pool.put("hello", 1);
    let item = assert_ready(poll_get(&mut pool));
    assert_eq!(item.item(), &"hello");
    assert_pending(poll_get(&mut pool));
}

#[test]
fn priority_poll_get_after_dropping_borrowed_item_returns_ready() {
    let mut pool = PriorityPool::<&str, u32>::new();
    pool.put("hello", 1);
    let item = assert_ready(poll_get(&mut pool));
    drop(item);
    let item = assert_ready(poll_get(&mut pool));
    assert_eq!(item.item(), &"hello");
}

#[test]
fn priority_poll_get_after_dropping_borrowed_item_and_putting_new_item_returns_ready() {
    let mut pool = PriorityPool::<&str, u32>::new();
    assert_pending(poll_get(&mut pool));

    pool.put("hello", 1);
    let item = assert_ready(poll_get(&mut pool));
    assert_pending(poll_get(&mut pool));

    drop(item);
    let item = assert_ready(poll_get(&mut pool));
    assert_eq!(item.item(), &"hello");

    pool.put("world", 1);
    let item = assert_ready(poll_get(&mut pool));
    assert_eq!(item.item(), &"world");
}

#[test]
fn poll_get_returns_highest_priority_item() {
    let mut pool = PriorityPool::<&str, u32>::new();
    pool.put("hello", 5);
    pool.put("world", 6);
    pool.put("foo", 4);
    pool.put("bar", 3);

    let item = assert_ready(poll_get(&mut pool));
    assert_eq!(item.item(), &"world");

    let item = assert_ready(poll_get(&mut pool));
    assert_eq!(item.item(), &"hello");

    let item = assert_ready(poll_get(&mut pool));
    assert_eq!(item.item(), &"foo");

    let item = assert_ready(poll_get(&mut pool));
    assert_eq!(item.item(), &"bar");
}

#[test]
fn poll_get_after_dropping_borrowed_item_returns_highest_priority_item() {
    let mut pool = PriorityPool::<&str, u32>::new();
    pool.put("hello", 5);
    pool.put("world", 6);
    pool.put("foo", 4);
    pool.put("bar", 3);

    let world = assert_ready(poll_get(&mut pool));
    assert_eq!(world.item(), &"world");

    let hello = assert_ready(poll_get(&mut pool));
    assert_eq!(hello.item(), &"hello");

    drop(world);
    let next_item = assert_ready(poll_get(&mut pool));
    assert_eq!(next_item.item(), &"world");

    let item = assert_ready(poll_get(&mut pool));
    assert_eq!(item.item(), &"foo");

    drop(hello);
    let next_item = assert_ready(poll_get(&mut pool));
    assert_eq!(next_item.item(), &"hello");

    let item = assert_ready(poll_get(&mut pool));
    assert_eq!(item.item(), &"bar");
}

#[test]
fn priority_poll_pop_from_empty_pool_returns_pending() {
    let mut pool = PriorityPool::<&str, u32>::new();
    assert_pending(poll_pop(&mut pool));
}

#[test]
fn priority_poll_pop_from_pool_of_one_item_returns_ready() {
    let mut pool = PriorityPool::<&str, u32>::new();
    pool.put("hello", 1);
    let (item, _) = assert_ready(poll_pop(&mut pool));
    assert_eq!(item, "hello");
}

#[test]
fn priority_poll_pop_reduce_len_by_one() {
    let mut pool = PriorityPool::<&str, u32>::new();
    pool.put("hello", 1);
    let (item, _) = assert_ready(poll_pop(&mut pool));
    assert_eq!(item, "hello");
    assert_eq!(pool.len(), 0);
}

#[test]
fn priority_poll_pop_from_exhausted_pool_returns_pending() {
    let mut pool = PriorityPool::<&str, u32>::new();
    pool.put("hello", 1);
    let (item, _) = assert_ready(poll_pop(&mut pool));
    assert_eq!(item, "hello");
    assert_pending(poll_pop(&mut pool));
}

#[test]
fn priority_poll_pop_after_dropping_borrowed_item_returns_ready() {
    let mut pool = PriorityPool::<&str, u32>::new();
    pool.put("hello", 1);
    let item = assert_ready(poll_get(&mut pool));
    drop(item);
    let (item, _) = assert_ready(poll_pop(&mut pool));
    assert_eq!(item, "hello");
}

#[test]
fn priority_poll_pop_after_dropping_removed_item_returns_pending() {
    let mut pool = PriorityPool::<&str, u32>::new();
    pool.put("hello", 1);
    let (item, _) = assert_ready(poll_pop(&mut pool));
    assert_eq!(item, "hello");
    drop(item);
    assert_pending(poll_pop(&mut pool));
}

#[test]
fn popped_items_come_in_falling_priority() {
    let mut pool = PriorityPool::new();
    let mut priority: u32 = 7;
    for i in 0..50 {
        priority = (priority * 31 + 11) % 97;
        pool.put(i, priority);
    }
    assert_eq!(pool.len(), 50);
    let mut last = u32::MAX;
    for _ in 0..50 {
        let (_, priority) = assert_some(pool.try_pop());
        assert!(priority <= last);
        last = priority;
    }
    assert_none(pool.try_pop());
    assert!(pool.is_empty());
}

#[test]
fn items_of_one_priority_all_come_out() {
    let mut pool = PriorityPool::new();
    for i in 0..6 {
        pool.put(i, 1);
    }
    let mut seen = vec![false; 6];
    for _ in 0..6 {
        let (item, priority) = assert_some(pool.try_pop());
        assert_eq!(priority, 1);
        assert!(!seen[item]);
        seen[item] = true;
    }
    assert_none(pool.try_pop());
}

#[test]
fn returned_item_goes_by_its_new_priority() {
    let mut pool = PriorityPool::new();
    pool.put("low", 1);
    pool.put("high", 9);
    let mut item = assert_some(pool.try_get());
    assert_eq!((*item.item(), *item.priority()), ("high", 9));
    *item.priority_mut() = 0;
    *item.item_mut() = "changed";
    drop(item);
    assert_eq!(pool.try_pop(), Some(("low", 1)));
    assert_eq!(pool.try_pop(), Some(("changed", 0)));
}

#[test]
fn borrowed_item_is_used_like_the_item() {
    let mut pool = PriorityPool::new();
    pool.put(String::from("a"), 1);
    let mut item = assert_some(pool.try_get());
    item.push('b');
    assert_eq!(item.len(), 2);
    assert_eq!(item.item(), "ab");
    assert_eq!(item.priority(), &1);
    drop(item);
    assert_eq!(pool.try_pop(), Some((String::from("ab"), 1)));
}

#[test]
fn priority_pool_with_everything_out_is_not_empty() {
    let mut pool = PriorityPool::new();
    assert!(pool.is_empty());
    pool.put((), 1);
    let item = assert_some(pool.try_get());
    assert!(!pool.is_empty());
    assert_none(pool.try_get());
    assert!(matches!(pool.get_or_lost(), Ok(None)));
    assert_eq!(pool.pop_or_lost(), Ok(None));
    drop(item);
    assert_eq!(blocking_pop(&mut pool), ((), 1));
    assert!(pool.is_empty());
}

#[test]
fn shrinking_keeps_the_prioritized_items() {
    let mut pool = PriorityPool::with_capacity(16);
    pool.put("a", 3);
    pool.put("b", 2);
    pool.put("c", 4);
    let c = assert_some(pool.try_get());
    pool.shrink_to_fit();
    assert_eq!(pool.len(), 3);
    drop(c);
    assert_eq!(pool.try_pop(), Some(("c", 4)));
    assert_eq!(pool.try_pop(), Some(("a", 3)));
    assert_eq!(pool.try_pop(), Some(("b", 2)));
}

#[test]
fn async_get_and_pop_take_the_highest_priority() {
    let mut pool = PriorityPool::new();
    pool.put("low", 1);
    pool.put("high", 2);
    block_on(async {
        let high = get(&mut pool).await;
        assert_eq!(high.item(), &"high");
        drop(high);
        assert_eq!(pop(&mut pool).await, ("high", 2));
        assert_eq!(pop(&mut pool).await, ("low", 1));
    });
    assert_eq!(pool.len(), 0);
}

#[test]
fn returning_a_prioritized_item_wakes_the_task_that_waits() {
    let mut pool = PriorityPool::new();
    pool.put("a", 1);
    let item = assert_some(pool.try_get());
    let count = Arc::new(Count(AtomicUsize::new(0)));
    let waker = Waker::from(count.clone());
    let mut cx = Context::from_waker(&waker);
    let mut request = pool.pop();
    assert!(matches!(request.poll(&mut cx), Ok(None)));
    drop(item);
    assert_eq!(count.0.load(Ordering::SeqCst), 1);
    assert_eq!(assert_ready(request.poll(&mut cx)), ("a", 1));
}

#[test]
fn prioritized_item_outlives_its_pool() {
    let mut pool = PriorityPool::new();
    let counted = Arc::new(());
    pool.put(counted.clone(), 1);
    let item = assert_some(pool.try_get());
    drop(pool);
    assert_eq!(Arc::strong_count(&counted), 2);
    drop(item);
    assert_eq!(Arc::strong_count(&counted), 1);
}

#[test]
fn entries_compare_by_priority_alone() {
    let low = PriorityItem::new("z", 1);
    let high = PriorityItem::new("a", 2);
    assert!(low < high);
    assert!(high > low);
    assert!(low == PriorityItem::new("a", 1));
    assert!(low != high);
    assert_eq!((low.item, low.priority), ("z", 1));
}

#[test]
fn prioritized_length_is_puts_less_pops_over_a_history() {
    let mut pool = PriorityPool::new();
    let mut pops = 0;
    let mut held = Vec::new();
    for i in 0..20 {
        pool.put(i, i % 7);
        held.extend(pool.try_get());
        if i % 3 == 0 {
            held.pop();
        }
        if i % 4 == 0 && pool.try_pop().is_some() {
            pops += 1;
        }
        assert_eq!(pool.len(), i + 1 - pops);
    }
    drop(held);
    assert_eq!(pool.pop_or_lost().map(|popped| popped.is_some()), Ok(true));
    assert_eq!(pool.len(), 20 - pops - 1);
}

#[test]
fn priority_pool_is_shown_as_its_lists() {
    let mut pool = PriorityPool::new();
    assert_eq!(format!("{:?}", pool), "PriorityPool { ready: [], borrowed: [] }");
    pool.put("hello", 1);
    pool.put("world", 2);
    assert_eq!(
        format!("{:?}", pool),
        "PriorityPool { ready: [PriorityItem { priority: 2, item: \"world\" }, \
         PriorityItem { priority: 1, item: \"hello\" }], borrowed: [] }"
    );
}

#[test]
fn borrowed_item_is_shown_with_its_priority() {
    let mut pool = PriorityPool::new();
    pool.put("hello", 1);
    let item = assert_some(pool.try_get());
    assert_eq!(
        format!("{:?}", item),
        format!(
            "PooledItem {{ item: {:?}, priority: {:?} }}",
            ManuallyDrop::new("hello"),
            ManuallyDrop::new(1)
        )
    );
}
