//! The regular pool.

use futures::executor::block_on;
use futures::task::noop_waker;
use piscina::channel::ItemLost;
use piscina::pool::PooledItem;
use piscina::Pool;
use std::future::poll_fn;
use std::sync::atomic::{AtomicUsize, Ordering};
use std::sync::Arc;
use std::task::{Context, Poll, Wake, Waker};

/// The value, which must be there.
fn assert_some<V>(value: Option<V>) -> V {
    match value {
        Some(value) => value,
        None => panic!("expected Some, got None"),
    }
}

fn assert_none<V>(value: Option<V>) {
    if value.is_some() {
        panic!("expected None, got Some");
    }
}

/// The outcome of a poll, which must be ready.
fn assert_ready<V>(outcome: Result<Option<V>, ItemLost>) -> V {
    match outcome {
        Ok(Some(value)) => value,
        Ok(None) => panic!("expected Ready, got Pending"),
        Err(ItemLost) => panic!("an item was lost"),
    }
}

fn assert_pending<V>(outcome: Result<Option<V>, ItemLost>) {
    match outcome {
        Ok(Some(_)) => panic!("expected Pending, got Ready"),
        Ok(None) => {}
        Err(ItemLost) => panic!("an item was lost"),
    }
}

/// Polls a new request for an item once, in a task that nothing wakes.
fn poll_get<T>(pool: &mut Pool<T>) -> Result<Option<PooledItem<T>>, ItemLost> {
    let waker = noop_waker();
    let mut cx = Context::from_waker(&waker);
    pool.get().poll(&mut cx)
}

/// Polls a new request to remove an item once, in a task that nothing wakes.
fn poll_pop<T>(pool: &mut Pool<T>) -> Result<Option<T>, ItemLost> {
    let waker = noop_waker();
    let mut cx = Context::from_waker(&waker);
    pool.pop().poll(&mut cx)
}

/// Makes attempts until one yields an item.
fn blocking_get<T>(pool: &mut Pool<T>) -> PooledItem<T> {
    loop {
        match pool.get_or_lost() {
            Ok(Some(item)) => return item,
            Ok(None) => std::hint::spin_loop(),
            Err(ItemLost) => panic!("an item was lost"),
        }
    }
}

/// Makes attempts until one yields an item to remove.
fn blocking_pop<T>(pool: &mut Pool<T>) -> T {
    loop {
        match pool.pop_or_lost() {
            Ok(Some(item)) => return item,
            Ok(None) => std::hint::spin_loop(),
            Err(ItemLost) => panic!("an item was lost"),
        }
    }
}

/// Waits for an item.
async fn get<T>(pool: &mut Pool<T>) -> PooledItem<T> {
    let mut request = pool.get();
    poll_fn(|cx| match request.poll(cx) {
        Ok(Some(item)) => Poll::Ready(item),
        Ok(None) => Poll::Pending,
        Err(ItemLost) => panic!("an item was lost"),
    })
    .await
}

/// Waits for an item to remove.
async fn pop<T>(pool: &mut Pool<T>) -> T {
    let mut request = pool.pop();
    poll_fn(|cx| match request.poll(cx) {
        Ok(Some(item)) => Poll::Ready(item),
        Ok(None) => Poll::Pending,
        Err(ItemLost) => panic!("an item was lost"),
    })
    .await
}

/// A waker that counts how often it is woken.
struct Count(AtomicUsize);

impl Wake for Count {
    fn wake(self: Arc<Self>) {
        self.0.fetch_add(1, Ordering::SeqCst);
    }
}

#[test]
fn create_pool() {
    let pool = Pool::<i32>::new();
    assert_eq!(pool.len(), 0);
}

#[test]
fn create_pool_with_capacity() {
    let pool = Pool::<i32>::with_capacity(10);
    assert_eq!(pool.len(), 0);
}

#[test]
fn pool_pool_len_does_not_change_after_borrowing_item() {
    let mut pool = Pool::new();
    pool.put(1);
    assert_eq!(pool.len(), 1);

    let item = assert_some(pool.try_get());
    assert_eq!(pool.len(), 1);

    drop(item);
    assert_eq!(pool.len(), 1);
}

#[test]
fn pool_try_get_from_empty_pool_returns_none() {
    let mut pool = Pool::<i32>::new();
    assert_none(pool.try_get());
}

#[test]
fn pool_try_get_from_non_empty_pool_returns_some() {
    let mut pool = Pool::<i32>::new();
    pool.put(1);
    assert_some(pool.try_get());
}

#[test]
fn try_get_from_exhausted_pool_returns_none() {
    let mut pool = Pool::new();
    pool.put(1);
    let _item = assert_some(pool.try_get());
    assert_none(pool.try_get());
}

#[test]
fn pool_try_get_after_dropping_borrowed_item_returns_some() {
    let mut pool = Pool::new();
    pool.put(1);
    let item = assert_some(pool.try_get());
    drop(item);
    assert_some(pool.try_get());
}

#[test]
fn pool_try_get_after_dropping_borrowed_item_and_putting_new_item_returns_some() {
    let mut pool = Pool::new();
    assert_none(pool.try_get());

    pool.put(1);
    let item = assert_some(pool.try_get());
    assert_none(pool.try_get());

    drop(item);
    assert_some(pool.try_get());

    pool.put(2);
    assert_some(pool.try_get());
}

#[test]
fn pool_blocking_get_from_non_empty_pool_returns_item() {
    let mut pool = Pool::new();
    pool.put(1);
    assert_eq!(*blocking_get(&mut pool), 1);
}

#[test]
fn pool_try_pop_from_empty_pool_returns_none() {
    let mut pool = Pool::<i32>::new();
    assert_none(pool.try_pop());
}

#[test]
fn pool_try_pop_reduce_len_by_one() {
    let mut pool = Pool::new();
    pool.put(1);
    assert_eq!(pool.len(), 1);
    assert_some(pool.try_pop());
    assert_eq!(pool.len(), 0);
}

#[test]
fn pool_poll_get_from_empty_pool_returns_pending() {
    let mut pool = Pool::<i32>::new();
    assert_pending(poll_get(&mut pool));
}

#[test]
fn pool_poll_get_from_pool_of_one_item_returns_ready() {
    let mut pool = Pool::new();
    pool.put(1);
    assert_ready(poll_get(&mut pool));
}

#[test]
fn pool_poll_get_from_exhausted_pool_returns_pending() {
    let mut pool = Pool::new();
    pool.put(1);
    let _item = assert_ready(poll_get(&mut pool));
    assert_pending(poll_get(&mut pool));
}

#[test]
fn pool_poll_get_after_dropping_borrowed_item_returns_ready() {
    let mut pool = Pool::new();
    pool.put(1);
    let item = assert_ready(poll_get(&mut pool));
    drop(item);
    assert_ready(poll_get(&mut pool));
}

#[test]
fn pool_poll_get_after_dropping_borrowed_item_and_putting_new_item_returns_ready() {
    let mut pool = Pool::new();
    assert_pending(poll_get(&mut pool));

    pool.put(1);
    let item = assert_ready(poll_get(&mut pool));
    assert_pending(poll_get(&mut pool));

    drop(item);
    assert_ready(poll_get(&mut pool));

    pool.put(2);
    assert_ready(poll_get(&mut pool));
}

#[test]
fn pool_poll_pop_from_empty_pool_returns_pending() {
    let mut pool = Pool::<i32>::new();
    assert_pending(poll_pop(&mut pool));
}

#[test]
fn pool_poll_pop_reduce_len_by_one() {
    let mut pool = Pool::new();
    pool.put(1);
    assert_eq!(pool.len(), 1);
    assert_ready(poll_pop(&mut pool));
    assert_eq!(pool.len(), 0);
}

#[test]
fn pool_poll_pop_from_pool_of_one_item_returns_ready() {
    let mut pool = Pool::new();
    pool.put(1);
    assert_ready(poll_pop(&mut pool));
}

#[test]
fn pool_poll_pop_from_exhausted_pool_returns_pending() {
    let mut pool = Pool::new();
    pool.put(1);
    let _item = assert_ready(poll_pop(&mut pool));
    assert_pending(poll_pop(&mut pool));
}

#[test]
fn pool_poll_pop_after_dropping_borrowed_item_returns_ready() {
    let mut pool = Pool::new();
    pool.put(1);
    let item = assert_ready(poll_get(&mut pool));
    drop(item);
    assert_ready(poll_pop(&mut pool));
}

#[test]
fn pool_poll_pop_after_dropping_removed_item_returns_pending() {
    let mut pool = Pool::new();
    pool.put(1);
    let item = assert_ready(poll_pop(&mut pool));
    drop(item);
    assert_pending(poll_pop(&mut pool));
}

#[test]
fn readme_sync_example() {
    let mut pool = Pool::new();
    pool.put(1);
    pool.put(2);

    let item1 = pool.try_get();
    assert!(item1.is_some());

    let item2 = blocking_get(&mut pool);
    assert_eq!(*item2, 2);

    let none = pool.try_get();
    assert!(none.is_none());

    drop(item1);
    let item3 = pool.try_get();
    assert!(item3.is_some());
}

#[test]
fn readme_async_example() {
    block_on(async {
        let mut pool = Pool::new();
        pool.put(1);
        pool.put(2);

        let item1 = get(&mut pool).await;
        let item2 = get(&mut pool).await;
        assert_eq!((*item1, *item2), (1, 2));

        let none = pool.try_get();
        assert!(none.is_none());

        drop(item1);
        let item3 = get(&mut pool).await;
        assert_eq!(*item3, 1);
    });
}

#[test]
fn default_pool_is_empty() {
    let pool = Pool::<i32>::default();
    assert!(pool.is_empty());
    assert_eq!(pool.len(), 0);
}

#[test]
fn pool_with_everything_out_is_not_empty() {
    let mut pool = Pool::new();
    assert!(pool.is_empty());
    pool.put(1);
    assert!(!pool.is_empty());
    let item = assert_some(pool.try_get());
    assert!(!pool.is_empty());
    drop(item);
    assert_some(pool.try_pop());
    assert!(pool.is_empty());
}

#[test]
fn items_are_popped_in_the_order_they_were_put() {
    let mut pool = Pool::new();
    for i in 0..5 {
        pool.put(i);
    }
    for i in 0..5 {
        assert_eq!(pool.try_pop(), Some(i));
    }
    assert_eq!(pool.try_pop(), None);
}

#[test]
fn returned_items_stand_behind_ready_ones_in_the_order_of_their_loans() {
    let mut pool = Pool::new();
    for i in 1..=4 {
        pool.put(i);
    }
    let one = assert_some(pool.try_get());
    let two = assert_some(pool.try_get());
    drop(two);
    drop(one);
    assert_eq!(pool.try_pop(), Some(3));
    assert_eq!(pool.try_pop(), Some(4));
    assert_eq!(pool.try_pop(), Some(1));
    assert_eq!(pool.try_pop(), Some(2));
    assert_eq!(pool.len(), 0);
}

#[test]
fn returned_item_keeps_its_changes() {
    let mut pool = Pool::new();
    pool.put(vec![1]);
    let mut item = assert_some(pool.try_get());
    item.item_mut().push(2);
    item.push(3);
    assert_eq!(item.item(), &vec![1, 2, 3]);
    assert_eq!(item.len(), 3);
    drop(item);
    assert_eq!(pool.try_pop(), Some(vec![1, 2, 3]));
}

#[test]
fn popped_item_leaves_for_good() {
    let mut pool = Pool::new();
    pool.put(1);
    pool.put(2);
    assert_eq!(blocking_pop(&mut pool), 1);
    assert_eq!(pool.len(), 1);
    assert_eq!(blocking_pop(&mut pool), 2);
    assert_eq!(pool.len(), 0);
    assert_eq!(pool.pop_or_lost(), Ok(None));
}

#[test]
fn blocking_pop_takes_a_returned_item() {
    let mut pool = Pool::new();
    pool.put(1);
    let mut item = blocking_get(&mut pool);
    *item = 5;
    assert!(matches!(pool.get_or_lost(), Ok(None)));
    drop(item);
    assert_eq!(blocking_pop(&mut pool), 5);
}

#[test]
fn async_pop_takes_items_in_order() {
    let mut pool = Pool::new();
    pool.put("a");
    pool.put("b");
    let popped = block_on(async { (pop(&mut pool).await, pop(&mut pool).await) });
    assert_eq!(popped, ("a", "b"));
    assert_eq!(pool.len(), 0);
}

#[test]
fn item_outlives_its_pool() {
    let mut pool = Pool::new();
    let counted = Arc::new(());
    pool.put(counted.clone());
    let item = assert_some(pool.try_get());
    drop(pool);
    assert_eq!(Arc::strong_count(&counted), 2);
    drop(item);
    assert_eq!(Arc::strong_count(&counted), 1);
}

#[test]
fn returned_item_is_dropped_with_its_pool() {
    let mut pool = Pool::new();
    let counted = Arc::new(());
    pool.put(counted.clone());
    drop(assert_some(pool.try_get()));
    assert_eq!(Arc::strong_count(&counted), 2);
    drop(pool);
    assert_eq!(Arc::strong_count(&counted), 1);
}

#[test]
fn shrinking_keeps_the_items() {
    let mut pool = Pool::with_capacity(16);
    pool.put(1);
    pool.put(2);
    let one = assert_some(pool.try_get());
    pool.shrink_to_fit();
    assert_eq!(pool.len(), 2);
    drop(one);
    assert_eq!(pool.try_pop(), Some(2));
    assert_eq!(pool.try_pop(), Some(1));
}

#[test]
fn returning_an_item_wakes_the_task_that_waits() {
    let mut pool = Pool::new();
    pool.put(1);
    let item = assert_some(pool.try_get());
    let count = Arc::new(Count(AtomicUsize::new(0)));
    let waker = Waker::from(count.clone());
    let mut cx = Context::from_waker(&waker);
    let mut request = pool.get();
    assert!(matches!(request.poll(&mut cx), Ok(None)));
    assert_eq!(count.0.load(Ordering::SeqCst), 0);
    drop(item);
    assert_eq!(count.0.load(Ordering::SeqCst), 1);
    assert_eq!(*assert_ready(request.poll(&mut cx)), 1);
}

#[test]
fn poll_of_the_pool_itself() {
    let mut pool = Pool::new();
    let waker = noop_waker();
    let mut cx = Context::from_waker(&waker);
    assert_pending(pool.poll_get(&mut cx));
    assert_pending(pool.poll_pop(&mut cx));
    pool.put(1);
    let item = assert_ready(pool.poll_get(&mut cx));
    assert_pending(pool.poll_pop(&mut cx));
    drop(item);
    assert_eq!(assert_ready(pool.poll_pop(&mut cx)), 1);
    assert_eq!(pool.len(), 0);
}

#[test]
fn forgotten_item_stays_out() {
    let mut pool = Pool::new();
    pool.put(1);
    std::mem::forget(assert_some(pool.try_get()));
    assert_none(pool.try_get());
    assert!(matches!(pool.get_or_lost(), Ok(None)));
    assert_eq!(pool.len(), 1);
}

#[test]
fn length_is_puts_less_pops_over_a_history() {
    let mut pool = Pool::new();
    let mut puts = 0;
    let mut pops = 0;
    let mut held = Vec::new();
    for i in 0..40 {
        match i % 5 {
            0 | 1 => {
                pool.put(i);
                puts += 1;
            }
            2 => held.extend(pool.try_get()),
            3 => {
                if i % 2 == 0 {
                    held.pop();
                } else {
                    held.extend(assert_some(pool.get_or_lost().ok()));
                }
            }
            _ => {
                if pool.try_pop().is_some() {
                    pops += 1;
                }
            }
        }
        assert_eq!(pool.len(), puts - pops);
    }
    if let Some(item) = held.pop() {
        std::mem::forget(item);
    }
    drop(held);
    let last = pool.try_get();
    assert!(last.is_some());
    assert_eq!(pool.len(), puts - pops);
}

#[test]
fn returned_item_is_available_once() {
    let mut pool = Pool::new();
    pool.put(1);
    let mut item = assert_some(pool.try_get());
    *item = 9;
    drop(item);
    assert_eq!(pool.try_pop(), Some(9));
    assert_eq!(pool.try_pop(), None);
    assert_eq!(pool.len(), 0);
}

#[test]
fn pool_is_shown_as_its_lists() {
    let mut pool = Pool::new();
    pool.put(1);
    pool.put(2);
    assert_eq!(format!("{:?}", pool), "Pool { ready: [1, 2], borrowed: [] }");
}
