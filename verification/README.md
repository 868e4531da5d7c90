# piscina

Pools of generic items, with contracts that Verus proves.

```rust
use piscina::Pool;

let mut pool = Pool::new();
pool.put(1);
pool.put(2);

let item1 = pool.try_get();
assert!(item1.is_some());

let item2 = pool.try_get();
assert!(item2.is_some());

let none = pool.try_get();
assert!(none.is_none());

drop(item1);
let item3 = pool.try_get();
assert!(item3.is_some());
```

`PriorityPool` is used in the same way; each of its items has a priority, and an item of the highest
priority is lent out first.

## Layout

- `src/channel.rs`: the one-shot channels of `futures_channel`, and what is believed of them
- `src/lease.rs`: an item on loan, which is sent back when it is dropped
- `src/round.rs`: what a round of asking the receivers for their items comes to
- `src/state.rs`: the states of a pool, the steps between them, and the laws that hold of both pools
- `src/history.rs`: what holds over a whole history of calls
- `src/internal.rs`: the store of the ready items, and the rounds themselves
- `src/heap.rs`: a binary max-heap
- `src/pool.rs`, `src/priority.rs`: the two pools
- `src/sequence.rs`: operations of the standard sequences
- `src/show.rs`: how values are shown for debugging
- `app/`: waiting for an item, by blocking the thread or by awaiting a future

## What is proved

A pool hands out an item whenever one is ready: the one that became ready first, or one that no other
exceeds in priority. It makes up no item, and of the items that are out it gives up only those whose
senders went away without sending. A borrowed item that is dropped is sent to the pool that lent it,
with the changes made to it. Over any history of calls the length of a pool is the number of items put
in, less those popped and those given up.

When an item that was sent back is seen by the pool depends on the threads at work, and is not part of
any contract.
