//! The store that a pool keeps its ready items in, and the rounds that ask the receivers of the
//! borrowed items for what has come back.

use crate::channel::{
    all_made, ask, ask_in_task, poll_recv, polled, tried, try_recv, ItemLost, Reply,
};
use crate::lease::Loan;
use crate::round::{
    all_asked, asked_until_lost, kept, law_each_answer_has_its_effect, law_each_poll_has_its_effect,
    lemma_kept_are_made, returned, waiting,
};
use crate::state::{law_lend_keeps_valid, PoolState};
use futures_channel::oneshot::{channel, Receiver};
use std::collections::VecDeque;
use std::task::Context;
use vstd::prelude::*;

verus! {

/// A store of the items that are ready to be lent out.
pub trait PoolStore: View {
    /// What the store holds.
    type Item;

    /// How many items `contents` are.
    spec fn size(contents: Self::V) -> nat;

    /// Whether `item` is among `contents`.
    spec fn holds(contents: Self::V, item: Self::Item) -> bool;

    /// The contents after `items` have been added to `contents`, one after the other.
    spec fn with_all(contents: Self::V, items: Seq<Self::Item>) -> Self::V;

    /// Whether taking out `taken` can lead from `before` to `after`.
    spec fn takes(before: Self::V, taken: Option<Self::Item>, after: Self::V) -> bool;

    /// Adding no items changes nothing.
    proof fn law_with_none(contents: Self::V)
        ensures
            Self::with_all(contents, Seq::empty()) == contents,
    ;

    /// Adding items and then one more is adding them all.
    proof fn law_with_one_more(contents: Self::V, items: Seq<Self::Item>, item: Self::Item)
        ensures
            Self::with_all(contents, items.push(item)) == Self::with_all(
                Self::with_all(contents, items),
                seq![item],
            ),
    ;

    /// What is added is held beside what was held before.
    proof fn law_with_all(contents: Self::V, items: Seq<Self::Item>)
        ensures
            Self::size(Self::with_all(contents, items)) == Self::size(contents) + items.len(),
            forall|item: Self::Item| #[trigger]
                Self::holds(Self::with_all(contents, items), item) <==> Self::holds(contents, item)
                    || items.contains(item),
    ;

    /// An item is taken out whenever there is one. It is one of those held, and one fewer is left.
    proof fn law_takes(before: Self::V, taken: Option<Self::Item>, after: Self::V)
        requires
            Self::takes(before, taken, after),
        ensures
            match taken {
                Some(item) => Self::holds(before, item) && Self::size(after) + 1 == Self::size(before),
                None => Self::size(before) == 0 && after == before,
            },
    ;

    /// Whether the store is in order, as it has to be for its items to leave in turn.
    spec fn wf(&self) -> bool;

    /// Adds an item.
    fn push(&mut self, item: Self::Item)
        requires
            old(self).wf(),
        ensures
            final(self).wf(),
            final(self)@ == Self::with_all(old(self)@, seq![item]),
    ;

    /// Takes out the item that is next in turn.
    fn pop(&mut self) -> (taken: Option<Self::Item>)
        requires
            old(self).wf(),
        ensures
            final(self).wf(),
            Self::takes(old(self)@, taken, final(self)@),
    ;
}

impl<T> PoolStore for VecDeque<T> {
    type Item = T;

    open spec fn size(contents: Seq<T>) -> nat {
        contents.len()
    }

    open spec fn holds(contents: Seq<T>, item: T) -> bool {
        contents.contains(item)
    }

    /// Items are added behind those that are held.
    open spec fn with_all(contents: Seq<T>, items: Seq<T>) -> Seq<T> {
        contents + items
    }

    /// Items leave in the order in which they came.
    open spec fn takes(before: Seq<T>, taken: Option<T>, after: Seq<T>) -> bool {
        match taken {
            Some(item) => before.len() > 0 && item == before[0] && after == before.drop_first(),
            None => before.len() == 0 && after == before,
        }
    }

    proof fn law_with_none(contents: Seq<T>) {
        assert(contents + Seq::<T>::empty() =~= contents);
    }

    proof fn law_with_one_more(contents: Seq<T>, items: Seq<T>, item: T) {
        assert(contents + items.push(item) =~= (contents + items) + seq![item]);
    }

    proof fn law_with_all(contents: Seq<T>, items: Seq<T>) {
        let all = contents + items;
        assert forall|item: T| #[trigger] all.contains(item) <==> contents.contains(item)
            || items.contains(item) by {
            if contents.contains(item) {
                assert(all[contents.index_of(item)] == item);
            }
            if items.contains(item) {
                assert(all[contents.len() + items.index_of(item)] == item);
            }
            if all.contains(item) {
                let i = all.index_of(item);
                if i < contents.len() {
                    assert(contents[i] == item);
                } else {
                    assert(items[i - contents.len()] == item);
                }
            }
        }
    }

    proof fn law_takes(before: Seq<T>, taken: Option<T>, after: Seq<T>) {
    }

    open spec fn wf(&self) -> bool {
        true
    }

    fn push(&mut self, item: T) {
        self.push_back(item);
        assert(self@ =~= old(self)@ + seq![item]);
    }

    fn pop(&mut self) -> (taken: Option<T>) {
        self.pop_front()
    }
}

/// What a queue does as a store, said of sequences: items are added behind those held, and the
/// first leaves first.
pub proof fn law_queue_as_store<T>(
    before: Seq<T>,
    items: Seq<T>,
    item: T,
    taken: Option<T>,
    after: Seq<T>,
)
    ensures
        VecDeque::<T>::size(before) == before.len(),
        VecDeque::<T>::holds(before, item) <==> before.contains(item),
        VecDeque::<T>::with_all(before, items) == before + items,
        VecDeque::<T>::takes(before, taken, after) <==> match taken {
            Some(out) => before.len() > 0 && before[0] == out && after == before.drop_first(),
            None => before.len() == 0 && after == before,
        },
{
}

/// Acts on the answer of one receiver: an item that came back is added to the store. Says whether
/// the receiver is to be kept.
pub fn settle<S: PoolStore>(ready: &mut S, reply: Reply<S::Item>) -> (keep: bool)
    requires
        old(ready).wf(),
    ensures
        final(ready).wf(),
        keep <==> reply is Waiting,
        final(ready)@ == match reply {
            Reply::Returned(item) => S::with_all(old(ready)@, seq![item]),
            _ => old(ready)@,
        },
{
    match reply {
        Reply::Returned(item) => {
            ready.push(item);
            false
        },
        Reply::Waiting => true,
        Reply::Lost => false,
    }
}

/// One more answer extends what a round has done by one receiver.
proof fn lemma_one_more<S: PoolStore>(
    contents: S::V,
    receivers: Seq<Receiver<S::Item>>,
    replies: Seq<Reply<S::Item>>,
    reply: Reply<S::Item>,
)
    ensures
        S::with_all(contents, returned(replies.push(reply))) == match reply {
            Reply::Returned(item) => S::with_all(
                S::with_all(contents, returned(replies)),
                seq![item],
            ),
            _ => S::with_all(contents, returned(replies)),
        },
        waiting(receivers, replies.push(reply)) == if reply is Waiting {
            waiting(receivers, replies).push(receivers[replies.len() as int])
        } else {
            waiting(receivers, replies)
        },
{
    let longer = replies.push(reply);
    assert(longer.drop_last() =~= replies);
    if let Reply::Returned(item) = reply {
        S::law_with_one_more(contents, returned(replies), item);
    }
}

/// A round that has come to `kept` and `returned` has led from one state to the other.
proof fn lemma_round_done<S: PoolStore>(
    ready: S,
    borrowed: Vec<Receiver<S::Item>>,
    ready_before: S,
    borrowed_before: Vec<Receiver<S::Item>>,
    replies: Seq<Reply<S::Item>>,
)
    requires
        replies.len() <= borrowed_before@.len(),
        ready@ == S::with_all(ready_before@, returned(replies)),
        borrowed@ == kept(borrowed_before@, replies),
    ensures
        PoolState::of(ready, borrowed) == PoolState::of(ready_before, borrowed_before).after(
            replies,
        ),
        all_made(borrowed_before@) ==> all_made(borrowed@),
{
    if all_made(borrowed_before@) {
        lemma_kept_are_made(borrowed_before@, replies);
    }
}

/// Asks every receiver for its item. The items that have come back are added to the store; the
/// receivers whose items are still out are kept, and all others are dropped, those whose items are
/// lost among them.
pub fn try_recv_from_borrowed<S: PoolStore>(ready: &mut S, borrowed: &mut Vec<Receiver<S::Item>>)
    requires
        old(ready).wf(),
    ensures
        final(ready).wf(),
        all_made(old(borrowed)@) ==> all_made(final(borrowed)@),
        exists|replies: Seq<Reply<S::Item>>|
            {
                &&& all_asked(None, old(borrowed)@, replies)
                &&& replies.len() == old(borrowed)@.len()
                &&& forall|i: int|
                    0 <= i < replies.len() ==> {
                        &&& match #[trigger] replies[i] {
                            Reply::Returned(item) => S::holds(final(ready)@, item),
                            Reply::Waiting => final(borrowed)@.contains(old(borrowed)@[i]),
                            Reply::Lost => true,
                        }
                        &&& exists|handle: &mut Receiver<S::Item>|
                            *handle == old(borrowed)@[i] && #[trigger] call_ensures(
                                try_recv::<S::Item>,
                                (handle,),
                                replies[i],
                            )
                    }
                &&& PoolState::of(*final(ready), *final(borrowed)) == #[trigger] PoolState::of(
                    *old(ready),
                    *old(borrowed),
                ).after(replies)
            },
{
    let ghost start = borrowed@;
    let ghost contents = ready@;
    let ghost mut replies: Seq<Reply<S::Item>> = Seq::empty();
    let mut next: usize = 0;
    proof {
        S::law_with_none(contents);
        assert(borrowed@ =~= kept(start, replies));
    }
    while next < borrowed.len()
        invariant
            ready.wf(),
            replies.len() <= start.len(),
            forall|i: int| 0 <= i < replies.len() ==> tried(#[trigger] start[i], replies[i]),
            ready@ == S::with_all(contents, returned(replies)),
            borrowed@ == kept(start, replies),
            next == waiting(start, replies).len(),
        decreases start.len() - replies.len(),
    {
        let ghost before = borrowed@;
        assert(before[next as int] == start[replies.len() as int]);
        let reply = ask(&mut borrowed[next]);
        proof {
            lemma_one_more::<S>(contents, start, replies, reply);
            replies = replies.push(reply);
        }
        if settle(ready, reply) {
            next = next + 1;
        } else {
            borrowed.remove(next);
        }
        assert(borrowed@ =~= kept(start, replies));
    }
    proof {
        assert(replies.len() == start.len());
        lemma_round_done(*ready, *borrowed, *old(ready), *old(borrowed), replies);
        S::law_with_all(contents, returned(replies));
        law_each_answer_has_its_effect(start, replies);
    }
}

/// Asks the receivers for their items, up to the first that reports a loss. The items that have
/// come back are added to the store; the receivers whose items are still out are kept, and so are
/// the one that reports a loss and those behind it.
pub fn try_recv_from_borrowed_or_lost<S: PoolStore>(
    ready: &mut S,
    borrowed: &mut Vec<Receiver<S::Item>>,
) -> (outcome: Result<(), ItemLost>)
    requires
        old(ready).wf(),
    ensures
        final(ready).wf(),
        all_made(old(borrowed)@) ==> all_made(final(borrowed)@),
        exists|replies: Seq<Reply<S::Item>>|
            {
                &&& asked_until_lost(None, old(borrowed)@, replies, outcome)
                &&& forall|i: int|
                    0 <= i < replies.len() ==> {
                        &&& match #[trigger] replies[i] {
                            Reply::Returned(item) => S::holds(final(ready)@, item),
                            Reply::Waiting => final(borrowed)@.contains(old(borrowed)@[i]),
                            Reply::Lost => false,
                        }
                        &&& exists|handle: &mut Receiver<S::Item>|
                            *handle == old(borrowed)@[i] && #[trigger] call_ensures(
                                try_recv::<S::Item>,
                                (handle,),
                                replies[i],
                            )
                    }
                &&& match outcome {
                    Ok(_) => replies.len() == old(borrowed)@.len(),
                    Err(_) => replies.len() < old(borrowed)@.len() && exists|handle: &mut Receiver<S::Item>|
                        *handle == old(borrowed)@[replies.len() as int] && #[trigger] call_ensures(
                            try_recv::<S::Item>,
                            (handle,),
                            Reply::Lost,
                        ),
                }
                &&& PoolState::of(*final(ready), *final(borrowed)) == #[trigger] PoolState::of(
                    *old(ready),
                    *old(borrowed),
                ).after(replies)
            },
{
    let ghost start = borrowed@;
    let ghost contents = ready@;
    let ghost mut replies: Seq<Reply<S::Item>> = Seq::empty();
    let mut next: usize = 0;
    proof {
        S::law_with_none(contents);
        assert(borrowed@ =~= kept(start, replies));
    }
    while next < borrowed.len()
        invariant
            ready.wf(),
            replies.len() <= start.len(),
            forall|i: int| 0 <= i < replies.len() ==> tried(#[trigger] start[i], replies[i]),
            forall|i: int| 0 <= i < replies.len() ==> #[trigger] replies[i] !is Lost,
            ready@ == S::with_all(contents, returned(replies)),
            borrowed@ == kept(start, replies),
            next == waiting(start, replies).len(),
            start == old(borrowed)@,
            contents == old(ready)@,
        decreases start.len() - replies.len(),
    {
        let ghost before = borrowed@;
        assert(before[next as int] == start[replies.len() as int]);
        let reply = ask(&mut borrowed[next]);
        if let Reply::Lost = reply {
            proof {
                assert(borrowed@ =~= before);
                lemma_round_done(*ready, *borrowed, *old(ready), *old(borrowed), replies);
                S::law_with_all(contents, returned(replies));
                law_each_answer_has_its_effect(start, replies);
            }
            return Err(ItemLost);
        }
        proof {
            lemma_one_more::<S>(contents, start, replies, reply);
            replies = replies.push(reply);
        }
        if settle(ready, reply) {
            next = next + 1;
        } else {
            borrowed.remove(next);
        }
        assert(borrowed@ =~= kept(start, replies));
    }
    proof {
        assert(replies.len() == start.len());
        lemma_round_done(*ready, *borrowed, *old(ready), *old(borrowed), replies);
        S::law_with_all(contents, returned(replies));
        law_each_answer_has_its_effect(start, replies);
    }
    Ok(())
}

/// Asks the receivers for their items as [`try_recv_from_borrowed_or_lost`] does, and has the task
/// of `cx` woken when one of those that are still out comes back.
pub fn poll_all_borrowed_and_push_back_ready<S: PoolStore>(
    ready: &mut S,
    borrowed: &mut Vec<Receiver<S::Item>>,
    cx: &mut Context<'_>,
) -> (outcome: Result<(), ItemLost>)
    requires
        old(ready).wf(),
    ensures
        final(ready).wf(),
        all_made(old(borrowed)@) ==> all_made(final(borrowed)@),
        *final(cx) == *old(cx),
        exists|replies: Seq<Reply<S::Item>>|
            {
                &&& asked_until_lost(Some(*old(cx)), old(borrowed)@, replies, outcome)
                &&& forall|i: int|
                    0 <= i < replies.len() ==> {
                        &&& match #[trigger] replies[i] {
                            Reply::Returned(item) => S::holds(final(ready)@, item),
                            Reply::Waiting => final(borrowed)@.contains(old(borrowed)@[i]),
                            Reply::Lost => false,
                        }
                        &&& exists|handle: &mut Receiver<S::Item>, task: &mut Context<'_>|
                            *handle == old(borrowed)@[i] && *task == *old(cx)
                                && #[trigger] call_ensures(
                                poll_recv::<S::Item>,
                                (handle, task),
                                replies[i],
                            )
                    }
                &&& match outcome {
                    Ok(_) => replies.len() == old(borrowed)@.len(),
                    Err(_) => replies.len() < old(borrowed)@.len() && exists|
                        handle: &mut Receiver<S::Item>,
                        task: &mut Context<'_>,
                    |
                        *handle == old(borrowed)@[replies.len() as int] && *task == *old(cx)
                            && #[trigger] call_ensures(
                            poll_recv::<S::Item>,
                            (handle, task),
                            Reply::Lost,
                        ),
                }
                &&& PoolState::of(*final(ready), *final(borrowed)) == #[trigger] PoolState::of(
                    *old(ready),
                    *old(borrowed),
                ).after(replies)
            },
{
    let ghost start = borrowed@;
    let ghost contents = ready@;
    let ghost mut replies: Seq<Reply<S::Item>> = Seq::empty();
    let mut next: usize = 0;
    proof {
        S::law_with_none(contents);
        assert(borrowed@ =~= kept(start, replies));
    }
    while next < borrowed.len()
        invariant
            ready.wf(),
            replies.len() <= start.len(),
            forall|i: int|
                0 <= i < replies.len() ==> polled(#[trigger] start[i], *old(cx), replies[i]),
            forall|i: int| 0 <= i < replies.len() ==> #[trigger] replies[i] !is Lost,
            ready@ == S::with_all(contents, returned(replies)),
            borrowed@ == kept(start, replies),
            next == waiting(start, replies).len(),
            start == old(borrowed)@,
            contents == old(ready)@,
            *cx == *old(cx),
        decreases start.len() - replies.len(),
    {
        let ghost before = borrowed@;
        assert(before[next as int] == start[replies.len() as int]);
        let reply = ask_in_task(&mut borrowed[next], cx);
        if let Reply::Lost = reply {
            proof {
                assert(borrowed@ =~= before);
                lemma_round_done(*ready, *borrowed, *old(ready), *old(borrowed), replies);
                S::law_with_all(contents, returned(replies));
                law_each_poll_has_its_effect(*old(cx), start, replies);
            }
            return Err(ItemLost);
        }
        proof {
            lemma_one_more::<S>(contents, start, replies, reply);
            replies = replies.push(reply);
        }
        if settle(ready, reply) {
            next = next + 1;
        } else {
            borrowed.remove(next);
        }
        assert(borrowed@ =~= kept(start, replies));
    }
    proof {
        assert(replies.len() == start.len());
        lemma_round_done(*ready, *borrowed, *old(ready), *old(borrowed), replies);
        S::law_with_all(contents, returned(replies));
        law_each_poll_has_its_effect(*old(cx), start, replies);
    }
    Ok(())
}

/// Lends out the item next in turn, of those that are ready.
pub fn lend<S: PoolStore>(ready: &mut S, borrowed: &mut Vec<Receiver<S::Item>>) -> (lent: Option<
    Loan<S::Item>,
>)
    requires
        old(ready).wf(),
    ensures
        final(ready).wf(),
        all_made(old(borrowed)@) ==> all_made(final(borrowed)@),
        PoolState::of(*old(ready), *old(borrowed)).lends(
            lent,
            PoolState::of(*final(ready), *final(borrowed)),
        ),
        match lent {
            Some(loan) => {
                &&& S::takes(old(ready)@, Some(loan.message), final(ready)@)
                &&& final(borrowed)@.len() == old(borrowed)@.len() + 1
                &&& final(borrowed)@.drop_last() == old(borrowed)@
                &&& call_ensures(channel::<S::Item>, (), (loan.sender, final(borrowed)@.last()))
            },
            None => S::takes(old(ready)@, None, final(ready)@) && final(borrowed)@ == old(borrowed)@,
        },
{
    match ready.pop() {
        Some(message) => {
            let (sender, receiver) = channel();
            let loan = Loan { message, sender };
            borrowed.push(receiver);
            proof {
                assert(borrowed@.drop_last() =~= old(borrowed)@);
                if all_made(old(borrowed)@) {
                    law_lend_keeps_valid(
                        PoolState::of(*old(ready), *old(borrowed)),
                        Some(loan),
                        PoolState::of(*ready, *borrowed),
                    );
                }
            }
            Some(loan)
        },
        None => None,
    }
}

} // verus!
