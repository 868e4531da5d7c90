//! Priority pool.

use crate::channel::{
    law_reply_is_an_answer, law_reply_is_resolution, poll_recv, replied, try_recv, ItemLost, Reply,
};
use crate::heap::{law_order_is_that_of_priorities, lawful, lemma_one_item, no_higher, PriorityHeap};
use crate::internal::{
    lend, poll_all_borrowed_and_push_back_ready, try_recv_from_borrowed,
    try_recv_from_borrowed_or_lost, PoolStore,
};
use crate::lease::{Lease, Loan};
use crate::round::{
    all_asked, asked_until_lost, law_each_reply_has_its_effect, law_returned_is_what_was_handed_out,
    law_returned_items, law_waiting_is_what_said_so, law_waiting_receiver_stays,
    lemma_waiting_contains, returned,
};
use crate::sequence::shrink_vec;
use crate::show;
use crate::state::{
    law_lend_count, law_lend_is_answered, law_lend_reports_true_losses, law_none_lent_in_vain,
    law_none_lent_while_all_wait, law_none_popped_in_vain, law_none_popped_while_all_wait,
    law_pop_count, law_pop_is_answered, law_pop_reports_true_losses, law_put_count,
    law_tried_lend_count, law_tried_lend_is_answered, law_tried_pop_count,
    law_tried_pop_is_answered, lemma_nothing_out, PoolState,
};
use futures_channel::oneshot::{channel, Receiver};
use std::cmp::Ordering;
use std::fmt;
use std::mem::ManuallyDrop;
use std::ops::{Deref, DerefMut};
use std::task::Context;
use vstd::future::FutureAdditionalSpecFns;
use vstd::multiset::Multiset;
use vstd::prelude::*;
use vstd::std_specs::cmp::{PartialEqSpec, PartialOrdIs, PartialOrdSpec};

verus! {

/// An item that is borrowed from a [`PriorityPool`], with its priority.
///
/// Dropping it returns both to the pool.
#[verifier::reject_recursive_types(T)]
#[verifier::reject_recursive_types(P)]
pub struct PooledItem<T, P> {
    lease: Lease<PriorityItem<T, P>>,
}

impl<T, P> PooledItem<T, P> {
    #[verifier::type_invariant]
    spec fn wf(self) -> bool {
        self.lease@ is Some
    }

    /// The item that is out, with the sender that it goes back through when it is dropped.
    pub closed spec fn loan(self) -> Loan<PriorityItem<T, P>> {
        self.lease@->Some_0
    }

    fn new(loan: Loan<PriorityItem<T, P>>) -> (pooled: Self)
        ensures
            pooled.loan() == loan,
    {
        PooledItem { lease: Lease::new(loan.message, loan.sender) }
    }

    /// Returns a reference to the item.
    pub fn item(&self) -> (item: &T)
        ensures
            *item == self.loan().message.item,
    {
        proof {
            use_type_invariant(self);
        }
        &self.lease.message().item
    }

    /// Returns a mutable reference to the item.
    pub fn item_mut(&mut self) -> (item: &mut T)
        ensures
            *item == old(self).loan().message.item,
            final(self).loan() == (Loan {
                message: PriorityItem {
                    item: *final(item),
                    priority: old(self).loan().message.priority,
                },
                sender: old(self).loan().sender,
            }),
    {
        proof {
            use_type_invariant(&*self);
        }
        &mut self.lease.message_mut().item
    }

    /// Returns a reference to the priority.
    pub fn priority(&self) -> (priority: &P)
        ensures
            *priority == self.loan().message.priority,
    {
        proof {
            use_type_invariant(self);
        }
        &self.lease.message().priority
    }

    /// Returns a mutable reference to the priority.
    pub fn priority_mut(&mut self) -> (priority: &mut P)
        ensures
            *priority == old(self).loan().message.priority,
            final(self).loan() == (Loan {
                message: PriorityItem {
                    item: old(self).loan().message.item,
                    priority: *final(priority),
                },
                sender: old(self).loan().sender,
            }),
    {
        proof {
            use_type_invariant(&*self);
        }
        &mut self.lease.message_mut().priority
    }
}

impl<T: fmt::Debug, P: fmt::Debug> fmt::Debug for PooledItem<T, P> {
    /// Shows the item and its priority.
    fn fmt(&self, f: &mut fmt::Formatter<'_>) -> (outcome: fmt::Result)
        ensures
            exists|shown: show::PooledItem<'_, T, P>|
                {
                    &&& *shown.item@ == self.loan().message.item
                    &&& *shown.priority@ == self.loan().message.priority
                    &&& #[trigger] show::written(shown, *old(f), outcome)
                },
    {
        let shown = show::PooledItem {
            item: ManuallyDrop::new(self.item()),
            priority: ManuallyDrop::new(self.priority()),
        };
        show::show(&shown, f)
    }
}

impl<T, P> Deref for PooledItem<T, P> {
    type Target = T;

    fn deref(&self) -> (item: &T)
        ensures
            *item == self.loan().message.item,
    {
        self.item()
    }
}

impl<T, P> DerefMut for PooledItem<T, P> {
    fn deref_mut(&mut self) -> (item: &mut T)
        ensures
            *item == old(self).loan().message.item,
            final(self).loan() == (Loan {
                message: PriorityItem {
                    item: *final(item),
                    priority: old(self).loan().message.priority,
                },
                sender: old(self).loan().sender,
            }),
    {
        self.item_mut()
    }
}

/// An item with its priority. Two of them are compared by priority alone.
#[derive(Debug)]
pub struct PriorityItem<T, P> {
    /// The priority of the item.
    pub priority: P,
    /// The item.
    pub item: T,
}

impl<T, P> vstd::std_specs::cmp::PartialEqSpecImpl for PriorityItem<T, P> where P: PartialEq {
    open spec fn obeys_eq_spec() -> bool {
        P::obeys_eq_spec()
    }

    open spec fn eq_spec(&self, other: &Self) -> bool {
        self.priority.eq_spec(&other.priority)
    }
}

impl<T, P> PartialEq for PriorityItem<T, P> where P: PartialEq {
    fn eq(&self, other: &Self) -> (same: bool) {
        self.priority.eq(&other.priority)
    }
}

impl<T, P> Eq for PriorityItem<T, P> where P: Eq {

}

impl<T, P> vstd::std_specs::cmp::PartialOrdSpecImpl for PriorityItem<T, P> where P: PartialOrd {
    open spec fn obeys_partial_cmp_spec() -> bool {
        P::obeys_partial_cmp_spec()
    }

    open spec fn partial_cmp_spec(&self, other: &Self) -> Option<Ordering> {
        self.priority.partial_cmp_spec(&other.priority)
    }
}

impl<T, P> PartialOrd for PriorityItem<T, P> where P: PartialOrd {
    fn partial_cmp(&self, other: &Self) -> (order: Option<Ordering>) {
        self.priority.partial_cmp(&other.priority)
    }
}

impl<T, P> PriorityItem<T, P> {
    /// Gives `item` the priority `priority`.
    pub fn new(item: T, priority: P) -> (entry: Self)
        ensures
            entry.item == item,
            entry.priority == priority,
    {
        PriorityItem { priority, item }
    }
}

/// The loan of a borrowed item, if there is one.
pub open spec fn loan_of<T, P>(lent: Option<PooledItem<T, P>>) -> Option<
    Loan<PriorityItem<T, P>>,
> {
    match lent {
        Some(pooled) => Some(pooled.loan()),
        None => None,
    }
}

/// The loan of a borrowed item, if there is one and no item was found lost.
pub open spec fn loan_unless_lost<T, P>(
    outcome: Result<Option<PooledItem<T, P>>, ItemLost>,
) -> Result<Option<Loan<PriorityItem<T, P>>>, ItemLost> {
    match outcome {
        Ok(lent) => Ok(loan_of(lent)),
        Err(loss) => Err(loss),
    }
}

/// A popped item and its priority put together, if there is one.
pub open spec fn entry_of<T, P>(taken: Option<(T, P)>) -> Option<PriorityItem<T, P>> {
    match taken {
        Some((item, priority)) => Some(PriorityItem { priority, item }),
        None => None,
    }
}

/// A popped item and its priority put together, if there is one and no item was found lost.
pub open spec fn entry_unless_lost<T, P>(outcome: Result<Option<(T, P)>, ItemLost>) -> Result<
    Option<PriorityItem<T, P>>,
    ItemLost,
> {
    match outcome {
        Ok(taken) => Ok(entry_of(taken)),
        Err(loss) => Err(loss),
    }
}

/// Whether no item of `entries` has a higher priority than `entry`.
pub open spec fn is_highest<T, P: Ord>(
    entry: PriorityItem<T, P>,
    entries: Multiset<PriorityItem<T, P>>,
) -> bool {
    forall|other: PriorityItem<T, P>| #[trigger] entries.contains(other) ==> no_higher(other, entry)
}

/// A pool that can be used to borrow items with a priority.
///
/// Internally it uses a max-heap, so that an item with the highest priority is lent out first.
#[derive(Debug)]
#[verifier::reject_recursive_types(T)]
#[verifier::reject_recursive_types(P)]
pub struct PriorityPool<T, P: Ord> {
    ready: PriorityHeap<T, P>,
    borrowed: Vec<Receiver<PriorityItem<T, P>>>,
}

impl<T, P: Ord> View for PriorityPool<T, P> {
    type V = PoolState<PriorityHeap<T, P>>;

    closed spec fn view(&self) -> PoolState<PriorityHeap<T, P>> {
        PoolState::of(self.ready, self.borrowed)
    }
}

/// Where the priorities obey the laws of a total order, an item is lent out only if no item that is
/// ready then has a higher priority, whether it was ready before or came back.
pub proof fn law_highest_first_lent<T, P: Ord>(
    pool: PoolState<PriorityHeap<T, P>>,
    replies: Seq<Reply<PriorityItem<T, P>>>,
    loan: Loan<PriorityItem<T, P>>,
    next: PoolState<PriorityHeap<T, P>>,
)
    requires
        lawful::<P>(),
        pool.after(replies).lends(Some(loan), next),
    ensures
        is_highest(loan.message, pool.ready),
        is_highest(loan.message, next.ready),
        forall|i: int|
            0 <= i < returned(replies).len() ==> no_higher(
                #[trigger] returned(replies)[i],
                loan.message,
            ),
{
    lemma_after_holds(pool, replies);
    lemma_others_were_held(pool.after(replies).ready, loan.message);
}

/// Where the priorities obey the laws of a total order, an item is popped only if no item that is
/// ready then has a higher priority, whether it was ready before or came back.
pub proof fn law_highest_first_popped<T, P: Ord>(
    pool: PoolState<PriorityHeap<T, P>>,
    replies: Seq<Reply<PriorityItem<T, P>>>,
    entry: PriorityItem<T, P>,
    next: PoolState<PriorityHeap<T, P>>,
)
    requires
        lawful::<P>(),
        pool.after(replies).pops(Some(entry), next),
    ensures
        is_highest(entry, pool.ready),
        is_highest(entry, next.ready),
        forall|i: int|
            0 <= i < returned(replies).len() ==> no_higher(#[trigger] returned(replies)[i], entry),
{
    lemma_after_holds(pool, replies);
    lemma_others_were_held(pool.after(replies).ready, entry);
}

/// What is left when `entry` has been taken out was held before.
proof fn lemma_others_were_held<A>(entries: Multiset<A>, entry: A)
    ensures
        forall|other: A| #[trigger] entries.remove(entry).contains(other) ==> entries.contains(other),
{
    assert forall|other: A| #[trigger] entries.remove(entry).contains(other) implies entries.contains(
        other,
    ) by {
        assert(entries.remove(entry).count(other) <= entries.count(other));
    }
}

/// What was ready before a round is ready after it, and so is what came back.
proof fn lemma_after_holds<T, P: Ord>(
    pool: PoolState<PriorityHeap<T, P>>,
    replies: Seq<Reply<PriorityItem<T, P>>>,
)
    ensures
        forall|entry: PriorityItem<T, P>| #[trigger]
            pool.ready.contains(entry) ==> pool.after(replies).ready.contains(entry),
        forall|i: int|
            0 <= i < returned(replies).len() ==> pool.after(replies).ready.contains(
                #[trigger] returned(replies)[i],
            ),
{
    PriorityHeap::<T, P>::law_with_all(pool.ready, returned(replies));
    assert forall|entry: PriorityItem<T, P>| #[trigger] pool.ready.contains(entry) implies pool.after(
        replies,
    ).ready.contains(entry) by {
        assert(PriorityHeap::<T, P>::holds(pool.after(replies).ready, entry));
    }
    assert forall|i: int| 0 <= i < returned(replies).len() implies pool.after(
        replies,
    ).ready.contains(#[trigger] returned(replies)[i]) by {
        assert(PriorityHeap::<T, P>::holds(pool.after(replies).ready, returned(replies)[i]));
    }
}

/// What is ready stays ready through a round, whatever is answered.
proof fn lemma_ready_stays<T, P: Ord>(pool: PoolState<PriorityHeap<T, P>>)
    ensures
        forall|replies: Seq<Reply<PriorityItem<T, P>>>, entry: PriorityItem<T, P>|
            #![trigger pool.after(replies), pool.ready.contains(entry)]
            pool.ready.contains(entry) ==> pool.after(replies).ready.contains(entry),
{
    assert forall|replies: Seq<Reply<PriorityItem<T, P>>>, entry: PriorityItem<T, P>|
        #![trigger pool.after(replies), pool.ready.contains(entry)]
        pool.ready.contains(entry) implies pool.after(replies).ready.contains(entry) by {
        lemma_after_holds(pool, replies);
    }
}

/// Where the priorities obey the laws of a total order, items that are popped one after the other,
/// with none put in or come back between, come in an order of which no priority is higher than one
/// before it.
pub proof fn law_popped_in_order<T, P: Ord>(
    pool: PoolState<PriorityHeap<T, P>>,
    first: PriorityItem<T, P>,
    between: PoolState<PriorityHeap<T, P>>,
    second: PriorityItem<T, P>,
    next: PoolState<PriorityHeap<T, P>>,
)
    requires
        lawful::<P>(),
        pool.pops(Some(first), between),
        between.pops(Some(second), next),
    ensures
        no_higher(second, first),
{
    assert(pool.ready.contains(second));
}

/// An item that was put into a pool with nothing ready is the next to be popped, and popping it
/// leaves the pool as it was.
pub proof fn law_put_then_pop<T, P: Ord>(
    pool: PoolState<PriorityHeap<T, P>>,
    entry: PriorityItem<T, P>,
    taken: Option<PriorityItem<T, P>>,
    next: PoolState<PriorityHeap<T, P>>,
)
    requires
        pool.ready.len() == 0,
        pool.with(entry).pops(taken, next),
    ensures
        taken == Some(entry),
        next == pool,
{
    PriorityHeap::<T, P>::law_with_all(pool.ready, seq![entry]);
    assert(seq![entry].contains(entry)) by {
        assert(seq![entry][0] == entry);
    }
    assert(PriorityHeap::<T, P>::holds(pool.with(entry).ready, entry));
    if let Some(out) = taken {
        assert(PriorityHeap::<T, P>::holds(pool.with(entry).ready, out));
        assert(!pool.ready.contains(out));
        assert(out == entry);
        lemma_one_item(entry);
        assert(pool.ready =~= Multiset::empty());
        assert(next.ready =~= pool.ready);
    }
}

/// What trying to get an item does: each receiver has an answer that the channel gave for it; what
/// was ready and what was handed out are available, and of them one that no other of them exceeds
/// in priority is lent out, and none only if none is available; and of the receivers those are kept
/// that were told to wait, with a new one for the loan.
pub proof fn law_get_tried<T, P: Ord>(
    pool: PoolState<PriorityHeap<T, P>>,
    lent: Option<Loan<PriorityItem<T, P>>>,
    next: PoolState<PriorityHeap<T, P>>,
)
    requires
        pool.tries_to_lend(lent, next),
    ensures
        exists|replies: Seq<Reply<PriorityItem<T, P>>>|
            {
                let asked = #[trigger] pool.borrowed.take(replies.len() as int).zip_with(replies);
                let back = replies.filter(|reply: Reply<PriorityItem<T, P>>| reply is Returned).map_values(
                    |reply: Reply<PriorityItem<T, P>>| reply->Returned_0,
                );
                let out = asked.filter(
                    |asked: (Receiver<PriorityItem<T, P>>, Reply<PriorityItem<T, P>>)| asked.1 is Waiting,
                ).map_values(|asked: (Receiver<PriorityItem<T, P>>, Reply<PriorityItem<T, P>>)| asked.0);
                let available = pool.ready.add(back.to_multiset());
                &&& replies.len() == pool.borrowed.len()
                &&& forall|i: int|
                    0 <= i < replies.len() ==> {
                        &&& match #[trigger] replies[i] {
                            Reply::Returned(item) => available.contains(item),
                            Reply::Waiting => out.contains(pool.borrowed[i]),
                            Reply::Lost => true,
                        }
                        &&& exists|handle: &mut Receiver<PriorityItem<T, P>>|
                            *handle == pool.borrowed[i] && #[trigger] call_ensures(
                                try_recv::<PriorityItem<T, P>>,
                                (handle,),
                                replies[i],
                            )
                    }
                &&& match lent {
                    Some(loan) => {
                        &&& available.contains(loan.message)
                        &&& next.ready == available.remove(loan.message)
                        &&& lawful::<P>() ==> forall|other: PriorityItem<T, P>|
                            #[trigger]
                            available.contains(other) ==> other.priority.is_le(
                                &loan.message.priority,
                            )
                        &&& next.borrowed.len() == out.len() + 1
                        &&& next.borrowed.drop_last() == out
                        &&& call_ensures(
                            channel::<PriorityItem<T, P>>,
                            (),
                            (loan.sender, next.borrowed.last()),
                        )
                    },
                    None => available.len() == 0 && next.ready == available && next.borrowed == out,
                }
            },
{
    let replies = choose|replies: Seq<Reply<PriorityItem<T, P>>>|
        all_asked(None, pool.borrowed, replies) && (#[trigger] pool.after(replies)).lends(
            lent,
            next,
        );
    law_each_reply_has_its_effect(None, pool.borrowed, replies);
    law_returned_is_what_was_handed_out(replies);
    law_waiting_is_what_said_so(pool.borrowed, replies);
    let back = replies.filter(|reply: Reply<PriorityItem<T, P>>| reply is Returned).map_values(
        |reply: Reply<PriorityItem<T, P>>| reply->Returned_0,
    );
    let out = pool.borrowed.take(replies.len() as int).zip_with(replies).filter(
        |asked: (Receiver<PriorityItem<T, P>>, Reply<PriorityItem<T, P>>)| asked.1 is Waiting,
    ).map_values(|asked: (Receiver<PriorityItem<T, P>>, Reply<PriorityItem<T, P>>)| asked.0);
    let available = pool.ready.add(back.to_multiset());
    assert(pool.after(replies).ready == available);
    assert(pool.after(replies).borrowed =~= out + pool.borrowed.skip(replies.len() as int));
    if replies.len() == pool.borrowed.len() {
        assert(pool.after(replies).borrowed =~= out);
    }
    PriorityHeap::<T, P>::law_with_all(pool.ready, back);
    assert forall|i: int| 0 <= i < replies.len() implies match #[trigger] replies[i] {
        Reply::Returned(item) => available.contains(item),
        Reply::Waiting => out.contains(pool.borrowed[i]),
        Reply::Lost => true,
    } by {
        match replies[i] {
            Reply::Returned(item) => {
                assert(back.contains(item));
                assert(PriorityHeap::<T, P>::holds(available, item));
            },
            Reply::Waiting => lemma_waiting_contains(pool.borrowed, replies, i),
            Reply::Lost => {},
        }
    }
}

/// What getting an item does, by an attempt or by a poll: each receiver has an answer that the
/// channel gave for it, with `cx` if there is one, up to the first that reports a loss; what was
/// ready and what was handed out are available, and of them one that no other of them exceeds in
/// priority is lent out, and none only if none is available; and of the receivers those are kept
/// that were told to wait, with a new one for the loan.
pub proof fn law_get_or_lost<'c, T, P: Ord>(
    pool: PoolState<PriorityHeap<T, P>>,
    cx: Option<Context<'c>>,
    outcome: Result<Option<Loan<PriorityItem<T, P>>>, ItemLost>,
    next: PoolState<PriorityHeap<T, P>>,
)
    requires
        pool.lends_unless_lost(cx, outcome, next),
    ensures
        exists|replies: Seq<Reply<PriorityItem<T, P>>>|
            {
                let asked = #[trigger] pool.borrowed.take(replies.len() as int).zip_with(replies);
                let back = replies.filter(|reply: Reply<PriorityItem<T, P>>| reply is Returned).map_values(
                    |reply: Reply<PriorityItem<T, P>>| reply->Returned_0,
                );
                let out = asked.filter(
                    |asked: (Receiver<PriorityItem<T, P>>, Reply<PriorityItem<T, P>>)| asked.1 is Waiting,
                ).map_values(|asked: (Receiver<PriorityItem<T, P>>, Reply<PriorityItem<T, P>>)| asked.0);
                let available = pool.ready.add(back.to_multiset());
                &&& replies.len() <= pool.borrowed.len()
                &&& forall|i: int|
                    0 <= i < replies.len() ==> {
                        &&& match #[trigger] replies[i] {
                            Reply::Returned(item) => available.contains(item),
                            Reply::Waiting => out.contains(pool.borrowed[i]),
                            Reply::Lost => false,
                        }
                        &&& match cx {
                            Some(cx) => exists|
                                handle: &mut Receiver<PriorityItem<T, P>>,
                                task: &mut Context<'c>,
                            |
                                *handle == pool.borrowed[i] && *task == cx
                                    && #[trigger] call_ensures(
                                    poll_recv::<PriorityItem<T, P>>,
                                    (handle, task),
                                    replies[i],
                                ),
                            None => exists|handle: &mut Receiver<PriorityItem<T, P>>|
                            *handle == pool.borrowed[i] && #[trigger] call_ensures(
                                try_recv::<PriorityItem<T, P>>,
                                (handle,),
                                replies[i],
                            ),
                        }
                    }
                &&& match outcome {
                    Ok(lent) => replies.len() == pool.borrowed.len() && match lent {
                            Some(loan) => {
                                &&& available.contains(loan.message)
                                &&& next.ready == available.remove(loan.message)
                                &&& lawful::<P>() ==> forall|other: PriorityItem<T, P>|
                                    #[trigger]
                                    available.contains(other) ==> other.priority.is_le(
                                        &loan.message.priority,
                                    )
                                &&& next.borrowed.len() == out.len() + 1
                                &&& next.borrowed.drop_last() == out
                                &&& call_ensures(
                                    channel::<PriorityItem<T, P>>,
                                    (),
                                    (loan.sender, next.borrowed.last()),
                                )
                            },
                            None => {
                                &&& available.len() == 0
                                &&& next.ready == available
                                &&& next.borrowed == out
                            },
                        },
                    Err(_) => {
                        &&& replies.len() < pool.borrowed.len()
                        &&& next.ready == available
                        &&& next.borrowed == out + pool.borrowed.skip(replies.len() as int)
                        &&& match cx {
                            Some(cx) => exists|
                                handle: &mut Receiver<PriorityItem<T, P>>,
                                task: &mut Context<'c>,
                            |
                                *handle == pool.borrowed[replies.len() as int] && *task == cx
                                    && #[trigger] call_ensures(
                                    poll_recv::<PriorityItem<T, P>>,
                                    (handle, task),
                                    Reply::Lost,
                                ),
                            None => exists|handle: &mut Receiver<PriorityItem<T, P>>|
                                *handle == pool.borrowed[replies.len() as int]
                                    && #[trigger] call_ensures(
                                    try_recv::<PriorityItem<T, P>>,
                                    (handle,),
                                    Reply::Lost,
                                ),
                        }
                    },
                }
            },
{
    let replies = choose|replies: Seq<Reply<PriorityItem<T, P>>>|
        {
            let asked = #[trigger] pool.after(replies);
            &&& asked_until_lost(cx, pool.borrowed, replies, outcome)
            &&& match outcome {
                Ok(lent) => asked.lends(lent, next),
                Err(_) => next == asked,
            }
        };
    law_each_reply_has_its_effect(cx, pool.borrowed, replies);
    law_returned_is_what_was_handed_out(replies);
    law_waiting_is_what_said_so(pool.borrowed, replies);
    if outcome is Err {
        law_reply_is_an_answer(cx, pool.borrowed[replies.len() as int], Reply::Lost);
    }
    let back = replies.filter(|reply: Reply<PriorityItem<T, P>>| reply is Returned).map_values(
        |reply: Reply<PriorityItem<T, P>>| reply->Returned_0,
    );
    let out = pool.borrowed.take(replies.len() as int).zip_with(replies).filter(
        |asked: (Receiver<PriorityItem<T, P>>, Reply<PriorityItem<T, P>>)| asked.1 is Waiting,
    ).map_values(|asked: (Receiver<PriorityItem<T, P>>, Reply<PriorityItem<T, P>>)| asked.0);
    let available = pool.ready.add(back.to_multiset());
    assert(pool.after(replies).ready == available);
    assert(pool.after(replies).borrowed =~= out + pool.borrowed.skip(replies.len() as int));
    if replies.len() == pool.borrowed.len() {
        assert(pool.after(replies).borrowed =~= out);
    }
    PriorityHeap::<T, P>::law_with_all(pool.ready, back);
    assert forall|i: int| 0 <= i < replies.len() implies match #[trigger] replies[i] {
        Reply::Returned(item) => available.contains(item),
        Reply::Waiting => out.contains(pool.borrowed[i]),
        Reply::Lost => false,
    } by {
        match replies[i] {
            Reply::Returned(item) => {
                assert(back.contains(item));
                assert(PriorityHeap::<T, P>::holds(available, item));
            },
            Reply::Waiting => lemma_waiting_contains(pool.borrowed, replies, i),
            Reply::Lost => {},
        }
    }
}

/// What trying to pop an item does: each receiver has an answer that the channel gave for it; what
/// was ready and what was handed out are available, and of them one that no other of them exceeds
/// in priority is taken out, and none only if none is available; and of the receivers those are
/// kept that were told to wait.
pub proof fn law_pop_tried<T, P: Ord>(
    pool: PoolState<PriorityHeap<T, P>>,
    taken: Option<PriorityItem<T, P>>,
    next: PoolState<PriorityHeap<T, P>>,
)
    requires
        pool.tries_to_pop(taken, next),
    ensures
        exists|replies: Seq<Reply<PriorityItem<T, P>>>|
            {
                let asked = #[trigger] pool.borrowed.take(replies.len() as int).zip_with(replies);
                let back = replies.filter(|reply: Reply<PriorityItem<T, P>>| reply is Returned).map_values(
                    |reply: Reply<PriorityItem<T, P>>| reply->Returned_0,
                );
                let out = asked.filter(
                    |asked: (Receiver<PriorityItem<T, P>>, Reply<PriorityItem<T, P>>)| asked.1 is Waiting,
                ).map_values(|asked: (Receiver<PriorityItem<T, P>>, Reply<PriorityItem<T, P>>)| asked.0);
                let available = pool.ready.add(back.to_multiset());
                &&& replies.len() == pool.borrowed.len()
                &&& forall|i: int|
                    0 <= i < replies.len() ==> {
                        &&& match #[trigger] replies[i] {
                            Reply::Returned(item) => available.contains(item),
                            Reply::Waiting => out.contains(pool.borrowed[i]),
                            Reply::Lost => true,
                        }
                        &&& exists|handle: &mut Receiver<PriorityItem<T, P>>|
                            *handle == pool.borrowed[i] && #[trigger] call_ensures(
                                try_recv::<PriorityItem<T, P>>,
                                (handle,),
                                replies[i],
                            )
                    }
                &&& match taken {
                    Some(item) => {
                        &&& available.contains(item)
                        &&& next.ready == available.remove(item)
                        &&& lawful::<P>() ==> forall|other: PriorityItem<T, P>|
                            #[trigger]
                            available.contains(other) ==> other.priority.is_le(
                                &item.priority,
                            )
                        &&& next.borrowed == out
                    },
                    None => available.len() == 0 && next.ready == available && next.borrowed == out,
                }
            },
{
    let replies = choose|replies: Seq<Reply<PriorityItem<T, P>>>|
        all_asked(None, pool.borrowed, replies) && (#[trigger] pool.after(replies)).pops(
            taken,
            next,
        );
    law_each_reply_has_its_effect(None, pool.borrowed, replies);
    law_returned_is_what_was_handed_out(replies);
    law_waiting_is_what_said_so(pool.borrowed, replies);
    let back = replies.filter(|reply: Reply<PriorityItem<T, P>>| reply is Returned).map_values(
        |reply: Reply<PriorityItem<T, P>>| reply->Returned_0,
    );
    let out = pool.borrowed.take(replies.len() as int).zip_with(replies).filter(
        |asked: (Receiver<PriorityItem<T, P>>, Reply<PriorityItem<T, P>>)| asked.1 is Waiting,
    ).map_values(|asked: (Receiver<PriorityItem<T, P>>, Reply<PriorityItem<T, P>>)| asked.0);
    let available = pool.ready.add(back.to_multiset());
    assert(pool.after(replies).ready == available);
    assert(pool.after(replies).borrowed =~= out + pool.borrowed.skip(replies.len() as int));
    if replies.len() == pool.borrowed.len() {
        assert(pool.after(replies).borrowed =~= out);
    }
    PriorityHeap::<T, P>::law_with_all(pool.ready, back);
    assert forall|i: int| 0 <= i < replies.len() implies match #[trigger] replies[i] {
        Reply::Returned(item) => available.contains(item),
        Reply::Waiting => out.contains(pool.borrowed[i]),
        Reply::Lost => true,
    } by {
        match replies[i] {
            Reply::Returned(item) => {
                assert(back.contains(item));
                assert(PriorityHeap::<T, P>::holds(available, item));
            },
            Reply::Waiting => lemma_waiting_contains(pool.borrowed, replies, i),
            Reply::Lost => {},
        }
    }
}

/// What popping an item does, by an attempt or by a poll: each receiver has an answer that the
/// channel gave for it, with `cx` if there is one, up to the first that reports a loss; what was
/// ready and what was handed out are available, and of them one that no other of them exceeds in
/// priority is taken out, and none only if none is available; and of the receivers those are kept
/// that were told to wait.
pub proof fn law_pop_or_lost<'c, T, P: Ord>(
    pool: PoolState<PriorityHeap<T, P>>,
    cx: Option<Context<'c>>,
    outcome: Result<Option<PriorityItem<T, P>>, ItemLost>,
    next: PoolState<PriorityHeap<T, P>>,
)
    requires
        pool.pops_unless_lost(cx, outcome, next),
    ensures
        exists|replies: Seq<Reply<PriorityItem<T, P>>>|
            {
                let asked = #[trigger] pool.borrowed.take(replies.len() as int).zip_with(replies);
                let back = replies.filter(|reply: Reply<PriorityItem<T, P>>| reply is Returned).map_values(
                    |reply: Reply<PriorityItem<T, P>>| reply->Returned_0,
                );
                let out = asked.filter(
                    |asked: (Receiver<PriorityItem<T, P>>, Reply<PriorityItem<T, P>>)| asked.1 is Waiting,
                ).map_values(|asked: (Receiver<PriorityItem<T, P>>, Reply<PriorityItem<T, P>>)| asked.0);
                let available = pool.ready.add(back.to_multiset());
                &&& replies.len() <= pool.borrowed.len()
                &&& forall|i: int|
                    0 <= i < replies.len() ==> {
                        &&& match #[trigger] replies[i] {
                            Reply::Returned(item) => available.contains(item),
                            Reply::Waiting => out.contains(pool.borrowed[i]),
                            Reply::Lost => false,
                        }
                        &&& match cx {
                            Some(cx) => exists|
                                handle: &mut Receiver<PriorityItem<T, P>>,
                                task: &mut Context<'c>,
                            |
                                *handle == pool.borrowed[i] && *task == cx
                                    && #[trigger] call_ensures(
                                    poll_recv::<PriorityItem<T, P>>,
                                    (handle, task),
                                    replies[i],
                                ),
                            None => exists|handle: &mut Receiver<PriorityItem<T, P>>|
                            *handle == pool.borrowed[i] && #[trigger] call_ensures(
                                try_recv::<PriorityItem<T, P>>,
                                (handle,),
                                replies[i],
                            ),
                        }
                    }
                &&& match outcome {
                    Ok(taken) => replies.len() == pool.borrowed.len() && match taken {
                            Some(item) => {
                                &&& available.contains(item)
                                &&& next.ready == available.remove(item)
                                &&& lawful::<P>() ==> forall|other: PriorityItem<T, P>|
                                    #[trigger]
                                    available.contains(other) ==> other.priority.is_le(
                                        &item.priority,
                                    )
                                &&& next.borrowed == out
                            },
                            None => {
                                &&& available.len() == 0
                                &&& next.ready == available
                                &&& next.borrowed == out
                            },
                        },
                    Err(_) => {
                        &&& replies.len() < pool.borrowed.len()
                        &&& next.ready == available
                        &&& next.borrowed == out + pool.borrowed.skip(replies.len() as int)
                        &&& match cx {
                            Some(cx) => exists|
                                handle: &mut Receiver<PriorityItem<T, P>>,
                                task: &mut Context<'c>,
                            |
                                *handle == pool.borrowed[replies.len() as int] && *task == cx
                                    && #[trigger] call_ensures(
                                    poll_recv::<PriorityItem<T, P>>,
                                    (handle, task),
                                    Reply::Lost,
                                ),
                            None => exists|handle: &mut Receiver<PriorityItem<T, P>>|
                                *handle == pool.borrowed[replies.len() as int]
                                    && #[trigger] call_ensures(
                                    try_recv::<PriorityItem<T, P>>,
                                    (handle,),
                                    Reply::Lost,
                                ),
                        }
                    },
                }
            },
{
    let replies = choose|replies: Seq<Reply<PriorityItem<T, P>>>|
        {
            let asked = #[trigger] pool.after(replies);
            &&& asked_until_lost(cx, pool.borrowed, replies, outcome)
            &&& match outcome {
                Ok(taken) => asked.pops(taken, next),
                Err(_) => next == asked,
            }
        };
    law_each_reply_has_its_effect(cx, pool.borrowed, replies);
    law_returned_is_what_was_handed_out(replies);
    law_waiting_is_what_said_so(pool.borrowed, replies);
    if outcome is Err {
        law_reply_is_an_answer(cx, pool.borrowed[replies.len() as int], Reply::Lost);
    }
    let back = replies.filter(|reply: Reply<PriorityItem<T, P>>| reply is Returned).map_values(
        |reply: Reply<PriorityItem<T, P>>| reply->Returned_0,
    );
    let out = pool.borrowed.take(replies.len() as int).zip_with(replies).filter(
        |asked: (Receiver<PriorityItem<T, P>>, Reply<PriorityItem<T, P>>)| asked.1 is Waiting,
    ).map_values(|asked: (Receiver<PriorityItem<T, P>>, Reply<PriorityItem<T, P>>)| asked.0);
    let available = pool.ready.add(back.to_multiset());
    assert(pool.after(replies).ready == available);
    assert(pool.after(replies).borrowed =~= out + pool.borrowed.skip(replies.len() as int));
    if replies.len() == pool.borrowed.len() {
        assert(pool.after(replies).borrowed =~= out);
    }
    PriorityHeap::<T, P>::law_with_all(pool.ready, back);
    assert forall|i: int| 0 <= i < replies.len() implies match #[trigger] replies[i] {
        Reply::Returned(item) => available.contains(item),
        Reply::Waiting => out.contains(pool.borrowed[i]),
        Reply::Lost => false,
    } by {
        match replies[i] {
            Reply::Returned(item) => {
                assert(back.contains(item));
                assert(PriorityHeap::<T, P>::holds(available, item));
            },
            Reply::Waiting => lemma_waiting_contains(pool.borrowed, replies, i),
            Reply::Lost => {},
        }
    }
}

/// Trying to get an item overlooks no item that came back: for each receiver that resolves to an
/// item, either the channel said just then that the item is still out, and the receiver is kept, or
/// there is an item for the caller of a priority no lower than that of this one, and it is this one
/// or this one is ready.
pub proof fn law_get_overlooks_no_returned_item<T, P: Ord>(
    pool: PoolState<PriorityHeap<T, P>>,
    lent: Option<Loan<PriorityItem<T, P>>>,
    next: PoolState<PriorityHeap<T, P>>,
    i: int,
)
    requires
        pool.valid(),
        pool.tries_to_lend(lent, next),
        0 <= i < pool.borrowed.len(),
        pool.borrowed[i]@ is Ok,
    ensures
        ({
            &&& next.borrowed.contains(pool.borrowed[i])
            &&& exists|handle: &mut Receiver<PriorityItem<T, P>>|
                *handle == pool.borrowed[i] && #[trigger] call_ensures(
                    try_recv::<PriorityItem<T, P>>,
                    (handle,),
                    Reply::Waiting,
                )
        }) || (lent matches Some(loan) && (lawful::<P>() ==> pool.borrowed[i]@->Ok_0.priority.is_le(
            &loan.message.priority,
        )) && (loan.message == pool.borrowed[i]@->Ok_0 || next.ready.contains(pool.borrowed[i]@->Ok_0))),
{
    let replies = choose|replies: Seq<Reply<PriorityItem<T, P>>>|
        all_asked(None, pool.borrowed, replies) && (#[trigger] pool.after(replies)).lends(
            lent,
            next,
        );
    let asked = pool.after(replies);
    let rx = pool.borrowed[i];
    assert(replied(None, rx, replies[i]));
    law_reply_is_resolution(None, rx, replies[i]);
    law_reply_is_an_answer(None, rx, replies[i]);
    match replies[i] {
        Reply::Waiting => {
            law_waiting_receiver_stays(pool.borrowed, replies, i);
            let k = asked.borrowed.index_of(rx);
            assert(next.borrowed[k] == rx) by {
                if lent is Some && next.borrowed.len() > asked.borrowed.len() {
                    assert(next.borrowed.drop_last()[k] == rx);
                }
            }
        },
        Reply::Returned(item) => {
            law_returned_items(replies, item);
            PriorityHeap::<T, P>::law_with_all(pool.ready, returned(replies));
            assert(PriorityHeap::<T, P>::holds(asked.ready, item));
            lemma_others_stay(asked.ready, item);
        },
        Reply::Lost => {},
    }
}

/// Getting an item, by an attempt or by a poll, overlooks no item that came back: for each receiver
/// that resolves to an item, either the channel said just then that the item is still out, and the
/// receiver is kept, or there is an item for the caller of a priority no lower than that of this
/// one, and it is this one or this one is ready.
pub proof fn law_get_or_lost_overlooks_no_returned_item<'c, T, P: Ord>(
    pool: PoolState<PriorityHeap<T, P>>,
    cx: Option<Context<'c>>,
    lent: Option<Loan<PriorityItem<T, P>>>,
    next: PoolState<PriorityHeap<T, P>>,
    i: int,
)
    requires
        pool.valid(),
        pool.lends_unless_lost(cx, Ok(lent), next),
        0 <= i < pool.borrowed.len(),
        pool.borrowed[i]@ is Ok,
    ensures
        ({
            &&& next.borrowed.contains(pool.borrowed[i])
            &&& match cx {
                Some(cx) => exists|handle: &mut Receiver<PriorityItem<T, P>>, task: &mut Context<'c>|
                    *handle == pool.borrowed[i] && *task == cx && #[trigger] call_ensures(
                        poll_recv::<PriorityItem<T, P>>,
                        (handle, task),
                        Reply::Waiting,
                    ),
                None => exists|handle: &mut Receiver<PriorityItem<T, P>>|
                    *handle == pool.borrowed[i] && #[trigger] call_ensures(
                        try_recv::<PriorityItem<T, P>>,
                        (handle,),
                        Reply::Waiting,
                    ),
            }
        }) || (lent matches Some(loan) && (lawful::<P>() ==> pool.borrowed[i]@->Ok_0.priority.is_le(
            &loan.message.priority,
        )) && (loan.message == pool.borrowed[i]@->Ok_0 || next.ready.contains(pool.borrowed[i]@->Ok_0))),
{
    let replies = choose|replies: Seq<Reply<PriorityItem<T, P>>>|
        asked_until_lost(cx, pool.borrowed, replies, Ok::<Option<Loan<PriorityItem<T, P>>>, ItemLost>(lent))
            && (#[trigger] pool.after(replies)).lends(lent, next);
    let asked = pool.after(replies);
    let rx = pool.borrowed[i];
    assert(replied(cx, rx, replies[i]));
    law_reply_is_resolution(cx, rx, replies[i]);
    law_reply_is_an_answer(cx, rx, replies[i]);
    match replies[i] {
        Reply::Waiting => {
            law_waiting_receiver_stays(pool.borrowed, replies, i);
            let k = asked.borrowed.index_of(rx);
            assert(next.borrowed[k] == rx) by {
                if lent is Some && next.borrowed.len() > asked.borrowed.len() {
                    assert(next.borrowed.drop_last()[k] == rx);
                }
            }
        },
        Reply::Returned(item) => {
            law_returned_items(replies, item);
            PriorityHeap::<T, P>::law_with_all(pool.ready, returned(replies));
            assert(PriorityHeap::<T, P>::holds(asked.ready, item));
            lemma_others_stay(asked.ready, item);
        },
        Reply::Lost => {},
    }
}

/// Trying to pop an item overlooks no item that came back: for each receiver that resolves to an
/// item, either the channel said just then that the item is still out, and the receiver is kept, or
/// there is an item for the caller of a priority no lower than that of this one, and it is this one
/// or this one is ready.
pub proof fn law_pop_overlooks_no_returned_item<T, P: Ord>(
    pool: PoolState<PriorityHeap<T, P>>,
    taken: Option<PriorityItem<T, P>>,
    next: PoolState<PriorityHeap<T, P>>,
    i: int,
)
    requires
        pool.valid(),
        pool.tries_to_pop(taken, next),
        0 <= i < pool.borrowed.len(),
        pool.borrowed[i]@ is Ok,
    ensures
        ({
            &&& next.borrowed.contains(pool.borrowed[i])
            &&& exists|handle: &mut Receiver<PriorityItem<T, P>>|
                *handle == pool.borrowed[i] && #[trigger] call_ensures(
                    try_recv::<PriorityItem<T, P>>,
                    (handle,),
                    Reply::Waiting,
                )
        }) || (taken matches Some(item) && (lawful::<P>() ==> pool.borrowed[i]@->Ok_0.priority.is_le(
            &item.priority,
        )) && (item == pool.borrowed[i]@->Ok_0 || next.ready.contains(pool.borrowed[i]@->Ok_0))),
{
    let replies = choose|replies: Seq<Reply<PriorityItem<T, P>>>|
        all_asked(None, pool.borrowed, replies) && (#[trigger] pool.after(replies)).pops(
            taken,
            next,
        );
    let asked = pool.after(replies);
    let rx = pool.borrowed[i];
    assert(replied(None, rx, replies[i]));
    law_reply_is_resolution(None, rx, replies[i]);
    law_reply_is_an_answer(None, rx, replies[i]);
    match replies[i] {
        Reply::Waiting => {
            law_waiting_receiver_stays(pool.borrowed, replies, i);
            let k = asked.borrowed.index_of(rx);
            assert(next.borrowed[k] == rx) by {
                if taken is Some && next.borrowed.len() > asked.borrowed.len() {
                    assert(next.borrowed.drop_last()[k] == rx);
                }
            }
        },
        Reply::Returned(item) => {
            law_returned_items(replies, item);
            PriorityHeap::<T, P>::law_with_all(pool.ready, returned(replies));
            assert(PriorityHeap::<T, P>::holds(asked.ready, item));
            lemma_others_stay(asked.ready, item);
        },
        Reply::Lost => {},
    }
}

/// Popping an item, by an attempt or by a poll, overlooks no item that came back: for each receiver
/// that resolves to an item, either the channel said just then that the item is still out, and the
/// receiver is kept, or there is an item for the caller of a priority no lower than that of this
/// one, and it is this one or this one is ready.
pub proof fn law_pop_or_lost_overlooks_no_returned_item<'c, T, P: Ord>(
    pool: PoolState<PriorityHeap<T, P>>,
    cx: Option<Context<'c>>,
    taken: Option<PriorityItem<T, P>>,
    next: PoolState<PriorityHeap<T, P>>,
    i: int,
)
    requires
        pool.valid(),
        pool.pops_unless_lost(cx, Ok(taken), next),
        0 <= i < pool.borrowed.len(),
        pool.borrowed[i]@ is Ok,
    ensures
        ({
            &&& next.borrowed.contains(pool.borrowed[i])
            &&& match cx {
                Some(cx) => exists|handle: &mut Receiver<PriorityItem<T, P>>, task: &mut Context<'c>|
                    *handle == pool.borrowed[i] && *task == cx && #[trigger] call_ensures(
                        poll_recv::<PriorityItem<T, P>>,
                        (handle, task),
                        Reply::Waiting,
                    ),
                None => exists|handle: &mut Receiver<PriorityItem<T, P>>|
                    *handle == pool.borrowed[i] && #[trigger] call_ensures(
                        try_recv::<PriorityItem<T, P>>,
                        (handle,),
                        Reply::Waiting,
                    ),
            }
        }) || (taken matches Some(item) && (lawful::<P>() ==> pool.borrowed[i]@->Ok_0.priority.is_le(
            &item.priority,
        )) && (item == pool.borrowed[i]@->Ok_0 || next.ready.contains(pool.borrowed[i]@->Ok_0))),
{
    let replies = choose|replies: Seq<Reply<PriorityItem<T, P>>>|
        asked_until_lost(cx, pool.borrowed, replies, Ok::<Option<PriorityItem<T, P>>, ItemLost>(taken))
            && (#[trigger] pool.after(replies)).pops(taken, next);
    let asked = pool.after(replies);
    let rx = pool.borrowed[i];
    assert(replied(cx, rx, replies[i]));
    law_reply_is_resolution(cx, rx, replies[i]);
    law_reply_is_an_answer(cx, rx, replies[i]);
    match replies[i] {
        Reply::Waiting => {
            law_waiting_receiver_stays(pool.borrowed, replies, i);
            let k = asked.borrowed.index_of(rx);
            assert(next.borrowed[k] == rx) by {
                if taken is Some && next.borrowed.len() > asked.borrowed.len() {
                    assert(next.borrowed.drop_last()[k] == rx);
                }
            }
        },
        Reply::Returned(item) => {
            law_returned_items(replies, item);
            PriorityHeap::<T, P>::law_with_all(pool.ready, returned(replies));
            assert(PriorityHeap::<T, P>::holds(asked.ready, item));
            lemma_others_stay(asked.ready, item);
        },
        Reply::Lost => {},
    }
}

/// What is held beside the item that is taken out stays.
proof fn lemma_others_stay<A>(entries: Multiset<A>, entry: A)
    ensures
        forall|out: A|
            entry != out && entries.contains(entry) ==> #[trigger] entries.remove(out).contains(
                entry,
            ),
{
}

/// What a caller is handed is what is said to be lent or popped: an item for a loan, and nothing
/// for none.
pub proof fn law_loan_is_what_is_handed_out<T, P>(
    pooled: PooledItem<T, P>,
    entry: PriorityItem<T, P>,
)
    ensures
        loan_of(Some(pooled)) == Some(pooled.loan()),
        loan_of(None::<PooledItem<T, P>>) is None,
        loan_unless_lost(Ok(Some(pooled))) matches Ok(lent) && lent == Some(pooled.loan()),
        loan_unless_lost(Ok(None::<PooledItem<T, P>>)) matches Ok(lent) && lent is None,
        loan_unless_lost(Err::<Option<PooledItem<T, P>>, ItemLost>(ItemLost)) is Err,
        entry_of(Some((entry.item, entry.priority))) == Some(entry),
        entry_of(None::<(T, P)>) is None,
        entry_unless_lost(Ok(Some((entry.item, entry.priority)))) matches Ok(taken) && taken
            == Some(entry),
        entry_unless_lost(Ok(None::<(T, P)>)) matches Ok(taken) && taken is None,
        entry_unless_lost(Err::<Option<(T, P)>, ItemLost>(ItemLost)) is Err,
{
}

/// What a pool is said to hold is what its two lists hold, its heap in order if it is well formed,
/// and what is said of its capacity is said of both of them.
proof fn law_pool_is_its_lists<T, P: Ord>(
    pool: PriorityPool<T, P>,
    capacity: usize,
    after: PriorityPool<T, P>,
)
    ensures
        pool@.ready == pool.ready@,
        pool@.borrowed == pool.borrowed@,
        pool.wf() <==> pool.ready.in_order(),
        pool.made_with_capacity(capacity) ==> pool.ready.made_with_capacity(capacity) && call_ensures(
            Vec::<Receiver<PriorityItem<T, P>>>::with_capacity,
            (capacity,),
            pool.borrowed,
        ),
        pool.shrinks_to(after) ==> pool.ready.shrinks_to(after.ready) && call_ensures(
            shrink_vec::<Receiver<PriorityItem<T, P>>>,
            (pool.borrowed,),
            after.borrowed,
        ),
{
}

/// The loan of a borrowed item is the one that is sent back when the item is dropped.
proof fn law_borrowed_item_is_its_loan<T, P>(pooled: PooledItem<T, P>)
    ensures
        pooled.lease@ is Some ==> pooled.lease@ == Some(pooled.loan()),
{
}

/// Entries are compared by their priorities alone, as those are.
pub proof fn law_entries_compare_by_priority<T, P: Ord>(
    a: PriorityItem<T, P>,
    b: PriorityItem<T, P>,
)
    ensures
        PriorityItem::<T, P>::obeys_eq_spec() == P::obeys_eq_spec(),
        PriorityItem::<T, P>::obeys_partial_cmp_spec() == P::obeys_partial_cmp_spec(),
        a.eq_spec(&b) == a.priority.eq_spec(&b.priority),
        a.partial_cmp_spec(&b) == a.priority.partial_cmp_spec(&b.priority),
{
}

/// The highest of some entries is one whose priority none of theirs exceeds.
pub proof fn law_highest<T, P: Ord>(
    entry: PriorityItem<T, P>,
    entries: Multiset<PriorityItem<T, P>>,
    other: PriorityItem<T, P>,
)
    requires
        is_highest(entry, entries),
        entries.count(other) > 0,
    ensures
        other.priority.is_le(&entry.priority),
{
    assert(entries.contains(other));
    law_order_is_that_of_priorities(other, entry);
}

/// Wraps a loan, if there is one, for the borrower.
fn borrow<T, P>(lent: Option<Loan<PriorityItem<T, P>>>) -> (borrowed: Option<PooledItem<T, P>>)
    ensures
        loan_of(borrowed) == lent,
{
    match lent {
        Some(loan) => Some(PooledItem::new(loan)),
        None => None,
    }
}

/// Takes an entry apart, if there is one, for the caller that popped it.
fn part<T, P>(taken: Option<PriorityItem<T, P>>) -> (parts: Option<(T, P)>)
    ensures
        entry_of(parts) == taken,
{
    match taken {
        Some(entry) => Some((entry.item, entry.priority)),
        None => None,
    }
}

impl<T, P: Ord> PriorityPool<T, P> {
    /// Whether the ready items are in order, as they are in every pool that no panicking comparison
    /// of priorities was ever caught in.
    pub closed spec fn wf(self) -> bool {
        self.ready.in_order()
    }

    /// Whether the ready and the borrowed list are as made with room for `capacity` items.
    pub closed spec fn made_with_capacity(self, capacity: usize) -> bool {
        &&& self.ready.made_with_capacity(capacity)
        &&& call_ensures(
            Vec::<Receiver<PriorityItem<T, P>>>::with_capacity,
            (capacity,),
            self.borrowed,
        )
    }

    /// Whether the lists of `after` are what shrinking the ready and the borrowed list came to.
    pub closed spec fn shrinks_to(self, after: Self) -> bool {
        &&& self.ready.shrinks_to(after.ready)
        &&& call_ensures(
            shrink_vec::<Receiver<PriorityItem<T, P>>>,
            (self.borrowed,),
            after.borrowed,
        )
    }

    /// Creates an empty pool.
    pub fn new() -> (pool: Self)
        ensures
            pool.wf(),
            pool@.valid(),
            pool@.ready == Multiset::<PriorityItem<T, P>>::empty(),
            pool@.borrowed == Seq::<Receiver<PriorityItem<T, P>>>::empty(),
    {
        PriorityPool { ready: PriorityHeap::new(), borrowed: Vec::new() }
    }

    /// Creates an empty pool with the given capacity for both the ready and the borrowed list. The
    /// lists themselves refuse a capacity of more than `isize::MAX` bytes.
    pub fn with_capacity(capacity: usize) -> (pool: Self)
        ensures
            pool.wf(),
            pool@.valid(),
            pool@.ready == Multiset::<PriorityItem<T, P>>::empty(),
            pool@.borrowed == Seq::<Receiver<PriorityItem<T, P>>>::empty(),
            pool.made_with_capacity(capacity),
    {
        PriorityPool {
            ready: PriorityHeap::with_capacity(capacity),
            borrowed: Vec::with_capacity(capacity),
        }
    }

    /// Returns the number of all items, whether ready or borrowed.
    pub fn len(&self) -> (len: usize)
        requires
            self@.count() <= usize::MAX,
        ensures
            len == self@.count(),
            len == self@.ready.len() + self@.borrowed.len(),
    {
        self.ready.len() + self.borrowed.len()
    }

    /// Returns `true` if the pool contains no items.
    pub fn is_empty(&self) -> (empty: bool)
        ensures
            empty <==> self@.count() == 0,
            empty <==> self@.ready.len() == 0 && self@.borrowed.len() == 0,
    {
        self.ready.len() == 0 && self.borrowed.len() == 0
    }

    /// Shrinks the capacity of both the ready and the borrowed list as much as possible.
    pub fn shrink_to_fit(&mut self)
        ensures
            old(self)@.valid() ==> final(self)@.valid(),
            final(self).wf() == old(self).wf(),
            final(self)@ == old(self)@,
            old(self).shrinks_to(*final(self)),
    {
        self.ready.shrink_to_fit();
        let mut borrowed: Vec<Receiver<PriorityItem<T, P>>> = Vec::new();
        std::mem::swap(&mut borrowed, &mut self.borrowed);
        self.borrowed = shrink_vec(borrowed);
    }

    /// Puts an item with the given priority into the pool.
    pub fn put(&mut self, item: T, priority: P)
        requires
            old(self).wf(),
        ensures
            old(self)@.valid() ==> final(self)@.valid(),
            final(self).wf(),
            final(self)@ == old(self)@.with(PriorityItem { priority, item }),
            final(self)@.ready == old(self)@.ready.insert(PriorityItem { priority, item }),
            final(self)@.borrowed == old(self)@.borrowed,
            final(self)@.count() == old(self)@.count() + 1,
    {
        PoolStore::push(&mut self.ready, PriorityItem::new(item, priority));
        proof {
            law_put_count(old(self)@, PriorityItem { priority, item });
            lemma_one_item(PriorityItem { priority, item });
        }
    }

    /// Tries to get an item of the highest priority that is immediately available from the pool.
    /// Returns `None` if there is none.
    ///
    /// If a sender is dropped before its item is returned to the pool, the item is lost, and this
    /// is reflected in the pool's length.
    pub fn try_get(&mut self) -> (lent: Option<PooledItem<T, P>>)
        requires
            old(self).wf(),
        ensures
            old(self)@.valid() ==> final(self)@.valid(),
            final(self).wf(),
            old(self)@.tries_to_lend(loan_of(lent), final(self)@),
            old(self)@.ready.len() > 0 ==> lent is Some,
            lent matches Some(pooled) ==> lawful::<P>() ==> is_highest(
                pooled.loan().message,
                old(self)@.ready,
            ),
            old(self)@.borrowed.len() == 0 ==> old(self)@.lends(loan_of(lent), final(self)@),
            final(self)@.count() <= old(self)@.count(),
            old(self)@.valid() && (forall|i: int|
                0 <= i < old(self)@.borrowed.len() ==> (#[trigger] old(self)@.borrowed[i])@ is Ok)
                ==> final(self)@.count() == old(self)@.count(),
            exists|replies: Seq<Reply<PriorityItem<T, P>>>|
                {
                    let asked = #[trigger] old(self)@.after(replies);
                    &&& replies.len() == old(self)@.borrowed.len()
                    &&& forall|i: int|
                        0 <= i < replies.len() ==> {
                            &&& match #[trigger] replies[i] {
                                Reply::Returned(item) => asked.ready.contains(item),
                                Reply::Waiting => asked.borrowed.contains(old(self)@.borrowed[i]),
                                Reply::Lost => true,
                            }
                            &&& exists|handle: &mut Receiver<PriorityItem<T, P>>|
                                *handle == old(self)@.borrowed[i] && #[trigger] call_ensures(
                                    try_recv::<PriorityItem<T, P>>,
                                    (handle,),
                                    replies[i],
                                )
                        }
                    &&& asked.lends(loan_of(lent), final(self)@)
                },
            lent is None ==> final(self)@.ready.len() == 0 && (forall|k: int|
                    0 <= k < final(self)@.borrowed.len() ==> {
                        &&& old(self)@.borrowed.contains(#[trigger] final(self)@.borrowed[k])
                        &&& exists|handle: &mut Receiver<PriorityItem<T, P>>|
                            *handle == final(self)@.borrowed[k] && #[trigger] call_ensures(
                                try_recv::<PriorityItem<T, P>>,
                                (handle,),
                                Reply::Waiting,
                            )
                    }),
    {
        try_recv_from_borrowed(&mut self.ready, &mut self.borrowed);
        let lent = borrow(lend(&mut self.ready, &mut self.borrowed));
        proof {
            law_tried_lend_is_answered(old(self)@, loan_of(lent), self@);
            if lent is None {
                assert forall|k: int| 0 <= k < self@.borrowed.len() implies {
                        &&& old(self)@.borrowed.contains(#[trigger] self@.borrowed[k])
                        &&& exists|handle: &mut Receiver<PriorityItem<T, P>>|
                            *handle == self@.borrowed[k] && #[trigger] call_ensures(
                                try_recv::<PriorityItem<T, P>>,
                                (handle,),
                                Reply::Waiting,
                            )
                } by {
                    law_none_lent_in_vain(old(self)@, self@, k);
                }
            }
            lemma_ready_stays(old(self)@);
            if old(self)@.borrowed.len() == 0 {
                lemma_nothing_out(old(self)@);
            }
            law_tried_lend_count(old(self)@, loan_of(lent), self@);
        }
        lent
    }

    /// Makes one attempt to get an item of the highest priority from the pool. Where it yields no
    /// item, whoever waits for one makes the next attempt after a while.
    ///
    /// It fails if a sender was dropped before its item was returned to the pool, which should
    /// never happen.
    pub fn get_or_lost(&mut self) -> (outcome: Result<Option<PooledItem<T, P>>, ItemLost>)
        requires
            old(self).wf(),
        ensures
            old(self)@.valid() ==> final(self)@.valid(),
            final(self).wf(),
            old(self)@.lends_unless_lost(None, loan_unless_lost(outcome), final(self)@),
            old(self)@.ready.len() > 0 ==> (outcome matches Ok(lent) ==> lent is Some),
            outcome matches Ok(Some(pooled)) ==> lawful::<P>() ==> is_highest(
                pooled.loan().message,
                old(self)@.ready,
            ),
            old(self)@.borrowed.len() == 0 ==> (outcome matches Ok(lent) && old(self)@.lends(
                loan_of(lent),
                final(self)@,
            )),
            final(self)@.count() == old(self)@.count(),
            old(self)@.valid() && (forall|i: int|
                0 <= i < old(self)@.borrowed.len() ==> (#[trigger] old(self)@.borrowed[i])@ is Ok)
                ==> outcome is Ok,
            exists|replies: Seq<Reply<PriorityItem<T, P>>>|
                {
                    let asked = #[trigger] old(self)@.after(replies);
                    &&& replies.len() <= old(self)@.borrowed.len()
                    &&& forall|i: int|
                        0 <= i < replies.len() ==> {
                            &&& match #[trigger] replies[i] {
                                Reply::Returned(item) => asked.ready.contains(item),
                                Reply::Waiting => asked.borrowed.contains(old(self)@.borrowed[i]),
                                Reply::Lost => false,
                            }
                            &&& exists|handle: &mut Receiver<PriorityItem<T, P>>|
                                *handle == old(self)@.borrowed[i] && #[trigger] call_ensures(
                                    try_recv::<PriorityItem<T, P>>,
                                    (handle,),
                                    replies[i],
                                )
                        }
                    &&& match loan_unless_lost(outcome) {
                        Ok(lent) => replies.len() == old(self)@.borrowed.len() && asked.lends(
                            lent,
                            final(self)@,
                        ),
                        Err(_) => {
                            &&& replies.len() < old(self)@.borrowed.len()
                            &&& final(self)@ == asked
                            &&& exists|handle: &mut Receiver<PriorityItem<T, P>>|
                                *handle == old(self)@.borrowed[replies.len() as int] && #[trigger] call_ensures(
                                    try_recv::<PriorityItem<T, P>>,
                                    (handle,),
                                    Reply::Lost,
                                )
                        },
                    }
                },
            outcome matches Ok(None) ==> final(self)@.ready.len() == 0 && (forall|k: int|
                    0 <= k < final(self)@.borrowed.len() ==> {
                        &&& old(self)@.borrowed.contains(#[trigger] final(self)@.borrowed[k])
                        &&& exists|handle: &mut Receiver<PriorityItem<T, P>>|
                            *handle == final(self)@.borrowed[k] && #[trigger] call_ensures(
                                try_recv::<PriorityItem<T, P>>,
                                (handle,),
                                Reply::Waiting,
                            )
                    }),
    {
        let outcome = match try_recv_from_borrowed_or_lost(&mut self.ready, &mut self.borrowed) {
            Ok(_) => Ok(borrow(lend(&mut self.ready, &mut self.borrowed))),
            Err(loss) => Err(loss),
        };
        proof {
            law_lend_is_answered(old(self)@, None, loan_unless_lost(outcome), self@);
            if outcome matches Ok(None) {
                assert forall|k: int| 0 <= k < self@.borrowed.len() implies {
                        &&& old(self)@.borrowed.contains(#[trigger] self@.borrowed[k])
                        &&& exists|handle: &mut Receiver<PriorityItem<T, P>>|
                            *handle == self@.borrowed[k] && #[trigger] call_ensures(
                                try_recv::<PriorityItem<T, P>>,
                                (handle,),
                                Reply::Waiting,
                            )
                } by {
                    law_none_lent_while_all_wait(old(self)@, None, self@, k);
                }
            }
            lemma_ready_stays(old(self)@);
            if old(self)@.borrowed.len() == 0 {
                lemma_nothing_out(old(self)@);
            }
            if old(self)@.valid() && forall|i: int|
                0 <= i < old(self)@.borrowed.len() ==> (#[trigger] old(self)@.borrowed[i])@ is Ok {
                law_lend_reports_true_losses(old(self)@, None, loan_unless_lost(outcome), self@);
            }
            law_lend_count(old(self)@, None, loan_unless_lost(outcome), self@);
        }
        outcome
    }

    /// As [`PriorityPool::get_or_lost`], and has the task of `cx` woken when an item comes back
    /// that is still out.
    pub fn poll_get(&mut self, cx: &mut Context<'_>) -> (outcome: Result<
        Option<PooledItem<T, P>>,
        ItemLost,
    >)
        requires
            old(self).wf(),
        ensures
            old(self)@.valid() ==> final(self)@.valid(),
            final(self).wf(),
            *final(cx) == *old(cx),
            old(self)@.lends_unless_lost(Some(*old(cx)), loan_unless_lost(outcome), final(self)@),
            old(self)@.ready.len() > 0 ==> (outcome matches Ok(lent) ==> lent is Some),
            outcome matches Ok(Some(pooled)) ==> lawful::<P>() ==> is_highest(
                pooled.loan().message,
                old(self)@.ready,
            ),
            old(self)@.borrowed.len() == 0 ==> (outcome matches Ok(lent) && old(self)@.lends(
                loan_of(lent),
                final(self)@,
            )),
            final(self)@.count() == old(self)@.count(),
            old(self)@.valid() && (forall|i: int|
                0 <= i < old(self)@.borrowed.len() ==> (#[trigger] old(self)@.borrowed[i])@ is Ok)
                ==> outcome is Ok,
            exists|replies: Seq<Reply<PriorityItem<T, P>>>|
                {
                    let asked = #[trigger] old(self)@.after(replies);
                    &&& replies.len() <= old(self)@.borrowed.len()
                    &&& forall|i: int|
                        0 <= i < replies.len() ==> {
                            &&& match #[trigger] replies[i] {
                                Reply::Returned(item) => asked.ready.contains(item),
                                Reply::Waiting => asked.borrowed.contains(old(self)@.borrowed[i]),
                                Reply::Lost => false,
                            }
                            &&& exists|
                                handle: &mut Receiver<PriorityItem<T, P>>,
                                task: &mut Context<'_>,
                            |
                                *handle == old(self)@.borrowed[i] && *task == *old(cx)
                                    && #[trigger] call_ensures(
                                    poll_recv::<PriorityItem<T, P>>,
                                    (handle, task),
                                    replies[i],
                                )
                        }
                    &&& match loan_unless_lost(outcome) {
                        Ok(lent) => replies.len() == old(self)@.borrowed.len() && asked.lends(
                            lent,
                            final(self)@,
                        ),
                        Err(_) => {
                            &&& replies.len() < old(self)@.borrowed.len()
                            &&& final(self)@ == asked
                            &&& exists|
                                handle: &mut Receiver<PriorityItem<T, P>>,
                                task: &mut Context<'_>,
                            |
                                *handle == old(self)@.borrowed[replies.len() as int] && *task == *old(cx)
                                    && #[trigger] call_ensures(
                                    poll_recv::<PriorityItem<T, P>>,
                                    (handle, task),
                                    Reply::Lost,
                                )
                        },
                    }
                },
            outcome matches Ok(None) ==> final(self)@.ready.len() == 0 && (forall|k: int|
                    0 <= k < final(self)@.borrowed.len() ==> {
                        &&& old(self)@.borrowed.contains(#[trigger] final(self)@.borrowed[k])
                        &&& exists|
                            handle: &mut Receiver<PriorityItem<T, P>>,
                            task: &mut Context<'_>,
                        |
                            *handle == final(self)@.borrowed[k] && *task == *old(cx)
                                && #[trigger] call_ensures(
                                poll_recv::<PriorityItem<T, P>>,
                                (handle, task),
                                Reply::Waiting,
                            )
                    }),
    {
        let outcome = match poll_all_borrowed_and_push_back_ready(
            &mut self.ready,
            &mut self.borrowed,
            cx,
        ) {
            Ok(_) => Ok(borrow(lend(&mut self.ready, &mut self.borrowed))),
            Err(loss) => Err(loss),
        };
        proof {
            law_lend_is_answered(old(self)@, Some(*old(cx)), loan_unless_lost(outcome), self@);
            if outcome matches Ok(None) {
                assert forall|k: int| 0 <= k < self@.borrowed.len() implies {
                        &&& old(self)@.borrowed.contains(#[trigger] self@.borrowed[k])
                        &&& exists|
                            handle: &mut Receiver<PriorityItem<T, P>>,
                            task: &mut Context<'_>,
                        |
                            *handle == self@.borrowed[k] && *task == *old(cx)
                                && #[trigger] call_ensures(
                                poll_recv::<PriorityItem<T, P>>,
                                (handle, task),
                                Reply::Waiting,
                            )
                } by {
                    law_none_lent_while_all_wait(old(self)@, Some(*old(cx)), self@, k);
                }
            }
            lemma_ready_stays(old(self)@);
            if old(self)@.borrowed.len() == 0 {
                lemma_nothing_out(old(self)@);
            }
            if old(self)@.valid() && forall|i: int|
                0 <= i < old(self)@.borrowed.len() ==> (#[trigger] old(self)@.borrowed[i])@ is Ok {
                law_lend_reports_true_losses(
                    old(self)@,
                    Some(*old(cx)),
                    loan_unless_lost(outcome),
                    self@,
                );
            }
            law_lend_count(old(self)@, Some(*old(cx)), loan_unless_lost(outcome), self@);
        }
        outcome
    }

    /// Gets an item of the highest priority from the pool. The item is had by polling what this
    /// returns.
    pub fn get(&mut self) -> (request: Get<'_, T, P>)
        ensures
            *request.pool == *old(self),
            *final(request.pool) == *final(self),
    {
        Get { pool: self }
    }

    /// Tries to remove an item of the highest priority that is immediately available from the pool.
    /// Returns `None` if there is none.
    ///
    /// If a sender is dropped before its item is returned to the pool, the item is lost, and this
    /// is reflected in the pool's length.
    pub fn try_pop(&mut self) -> (taken: Option<(T, P)>)
        requires
            old(self).wf(),
        ensures
            old(self)@.valid() ==> final(self)@.valid(),
            final(self).wf(),
            old(self)@.tries_to_pop(entry_of(taken), final(self)@),
            old(self)@.ready.len() > 0 ==> taken is Some,
            entry_of(taken) matches Some(entry) ==> lawful::<P>() ==> is_highest(
                entry,
                old(self)@.ready,
            ),
            old(self)@.borrowed.len() == 0 ==> old(self)@.pops(entry_of(taken), final(self)@),
            taken is None ==> final(self)@.count() <= old(self)@.count(),
            taken is Some ==> final(self)@.count() < old(self)@.count(),
            old(self)@.valid() && (forall|i: int|
                0 <= i < old(self)@.borrowed.len() ==> (#[trigger] old(self)@.borrowed[i])@ is Ok)
                ==> final(self)@.count() == old(self)@.count() - (if taken is Some {
                1int
            } else {
                0int
            }),
            exists|replies: Seq<Reply<PriorityItem<T, P>>>|
                {
                    let asked = #[trigger] old(self)@.after(replies);
                    &&& replies.len() == old(self)@.borrowed.len()
                    &&& forall|i: int|
                        0 <= i < replies.len() ==> {
                            &&& match #[trigger] replies[i] {
                                Reply::Returned(item) => asked.ready.contains(item),
                                Reply::Waiting => asked.borrowed.contains(old(self)@.borrowed[i]),
                                Reply::Lost => true,
                            }
                            &&& exists|handle: &mut Receiver<PriorityItem<T, P>>|
                                *handle == old(self)@.borrowed[i] && #[trigger] call_ensures(
                                    try_recv::<PriorityItem<T, P>>,
                                    (handle,),
                                    replies[i],
                                )
                        }
                    &&& asked.pops(entry_of(taken), final(self)@)
                },
            taken is None ==> final(self)@.ready.len() == 0 && (forall|k: int|
                    0 <= k < final(self)@.borrowed.len() ==> {
                        &&& old(self)@.borrowed.contains(#[trigger] final(self)@.borrowed[k])
                        &&& exists|handle: &mut Receiver<PriorityItem<T, P>>|
                            *handle == final(self)@.borrowed[k] && #[trigger] call_ensures(
                                try_recv::<PriorityItem<T, P>>,
                                (handle,),
                                Reply::Waiting,
                            )
                    }),
    {
        try_recv_from_borrowed(&mut self.ready, &mut self.borrowed);
        let taken = part(PoolStore::pop(&mut self.ready));
        proof {
            law_tried_pop_is_answered(old(self)@, entry_of(taken), self@);
            if taken is None {
                assert forall|k: int| 0 <= k < self@.borrowed.len() implies {
                        &&& old(self)@.borrowed.contains(#[trigger] self@.borrowed[k])
                        &&& exists|handle: &mut Receiver<PriorityItem<T, P>>|
                            *handle == self@.borrowed[k] && #[trigger] call_ensures(
                                try_recv::<PriorityItem<T, P>>,
                                (handle,),
                                Reply::Waiting,
                            )
                } by {
                    law_none_popped_in_vain(old(self)@, self@, k);
                }
            }
            lemma_ready_stays(old(self)@);
            if old(self)@.borrowed.len() == 0 {
                lemma_nothing_out(old(self)@);
            }
            law_tried_pop_count(old(self)@, entry_of(taken), self@);
        }
        taken
    }

    /// Makes one attempt to remove an item of the highest priority from the pool. Where it yields
    /// no item, whoever waits for one makes the next attempt after a while.
    ///
    /// It fails if a sender was dropped before its item was returned to the pool, which should
    /// never happen.
    pub fn pop_or_lost(&mut self) -> (outcome: Result<Option<(T, P)>, ItemLost>)
        requires
            old(self).wf(),
        ensures
            old(self)@.valid() ==> final(self)@.valid(),
            final(self).wf(),
            old(self)@.pops_unless_lost(None, entry_unless_lost(outcome), final(self)@),
            old(self)@.ready.len() > 0 ==> (outcome matches Ok(taken) ==> taken is Some),
            entry_unless_lost(outcome) matches Ok(Some(entry)) ==> lawful::<P>() ==> is_highest(
                entry,
                old(self)@.ready,
            ),
            old(self)@.borrowed.len() == 0 ==> (outcome matches Ok(taken) && old(self)@.pops(
                entry_of(taken),
                final(self)@,
            )),
            final(self)@.count() == old(self)@.count() - (if outcome matches Ok(Some(_)) {
                1int
            } else {
                0int
            }),
            old(self)@.valid() && (forall|i: int|
                0 <= i < old(self)@.borrowed.len() ==> (#[trigger] old(self)@.borrowed[i])@ is Ok)
                ==> outcome is Ok,
            exists|replies: Seq<Reply<PriorityItem<T, P>>>|
                {
                    let asked = #[trigger] old(self)@.after(replies);
                    &&& replies.len() <= old(self)@.borrowed.len()
                    &&& forall|i: int|
                        0 <= i < replies.len() ==> {
                            &&& match #[trigger] replies[i] {
                                Reply::Returned(item) => asked.ready.contains(item),
                                Reply::Waiting => asked.borrowed.contains(old(self)@.borrowed[i]),
                                Reply::Lost => false,
                            }
                            &&& exists|handle: &mut Receiver<PriorityItem<T, P>>|
                                *handle == old(self)@.borrowed[i] && #[trigger] call_ensures(
                                    try_recv::<PriorityItem<T, P>>,
                                    (handle,),
                                    replies[i],
                                )
                        }
                    &&& match entry_unless_lost(outcome) {
                        Ok(taken) => replies.len() == old(self)@.borrowed.len() && asked.pops(
                            taken,
                            final(self)@,
                        ),
                        Err(_) => {
                            &&& replies.len() < old(self)@.borrowed.len()
                            &&& final(self)@ == asked
                            &&& exists|handle: &mut Receiver<PriorityItem<T, P>>|
                                *handle == old(self)@.borrowed[replies.len() as int] && #[trigger] call_ensures(
                                    try_recv::<PriorityItem<T, P>>,
                                    (handle,),
                                    Reply::Lost,
                                )
                        },
                    }
                },
            outcome matches Ok(None) ==> final(self)@.ready.len() == 0 && (forall|k: int|
                    0 <= k < final(self)@.borrowed.len() ==> {
                        &&& old(self)@.borrowed.contains(#[trigger] final(self)@.borrowed[k])
                        &&& exists|handle: &mut Receiver<PriorityItem<T, P>>|
                            *handle == final(self)@.borrowed[k] && #[trigger] call_ensures(
                                try_recv::<PriorityItem<T, P>>,
                                (handle,),
                                Reply::Waiting,
                            )
                    }),
    {
        let outcome = match try_recv_from_borrowed_or_lost(&mut self.ready, &mut self.borrowed) {
            Ok(_) => Ok(part(PoolStore::pop(&mut self.ready))),
            Err(loss) => Err(loss),
        };
        proof {
            law_pop_is_answered(old(self)@, None, entry_unless_lost(outcome), self@);
            if outcome matches Ok(None) {
                assert forall|k: int| 0 <= k < self@.borrowed.len() implies {
                        &&& old(self)@.borrowed.contains(#[trigger] self@.borrowed[k])
                        &&& exists|handle: &mut Receiver<PriorityItem<T, P>>|
                            *handle == self@.borrowed[k] && #[trigger] call_ensures(
                                try_recv::<PriorityItem<T, P>>,
                                (handle,),
                                Reply::Waiting,
                            )
                } by {
                    law_none_popped_while_all_wait(old(self)@, None, self@, k);
                }
            }
            lemma_ready_stays(old(self)@);
            if old(self)@.borrowed.len() == 0 {
                lemma_nothing_out(old(self)@);
            }
            if old(self)@.valid() && forall|i: int|
                0 <= i < old(self)@.borrowed.len() ==> (#[trigger] old(self)@.borrowed[i])@ is Ok {
                law_pop_reports_true_losses(old(self)@, None, entry_unless_lost(outcome), self@);
            }
            law_pop_count(old(self)@, None, entry_unless_lost(outcome), self@);
        }
        outcome
    }

    /// As [`PriorityPool::pop_or_lost`], and has the task of `cx` woken when an item comes back
    /// that is still out.
    pub fn poll_pop(&mut self, cx: &mut Context<'_>) -> (outcome: Result<Option<(T, P)>, ItemLost>)
        requires
            old(self).wf(),
        ensures
            old(self)@.valid() ==> final(self)@.valid(),
            final(self).wf(),
            *final(cx) == *old(cx),
            old(self)@.pops_unless_lost(Some(*old(cx)), entry_unless_lost(outcome), final(self)@),
            old(self)@.ready.len() > 0 ==> (outcome matches Ok(taken) ==> taken is Some),
            entry_unless_lost(outcome) matches Ok(Some(entry)) ==> lawful::<P>() ==> is_highest(
                entry,
                old(self)@.ready,
            ),
            old(self)@.borrowed.len() == 0 ==> (outcome matches Ok(taken) && old(self)@.pops(
                entry_of(taken),
                final(self)@,
            )),
            final(self)@.count() == old(self)@.count() - (if outcome matches Ok(Some(_)) {
                1int
            } else {
                0int
            }),
            old(self)@.valid() && (forall|i: int|
                0 <= i < old(self)@.borrowed.len() ==> (#[trigger] old(self)@.borrowed[i])@ is Ok)
                ==> outcome is Ok,
            exists|replies: Seq<Reply<PriorityItem<T, P>>>|
                {
                    let asked = #[trigger] old(self)@.after(replies);
                    &&& replies.len() <= old(self)@.borrowed.len()
                    &&& forall|i: int|
                        0 <= i < replies.len() ==> {
                            &&& match #[trigger] replies[i] {
                                Reply::Returned(item) => asked.ready.contains(item),
                                Reply::Waiting => asked.borrowed.contains(old(self)@.borrowed[i]),
                                Reply::Lost => false,
                            }
                            &&& exists|
                                handle: &mut Receiver<PriorityItem<T, P>>,
                                task: &mut Context<'_>,
                            |
                                *handle == old(self)@.borrowed[i] && *task == *old(cx)
                                    && #[trigger] call_ensures(
                                    poll_recv::<PriorityItem<T, P>>,
                                    (handle, task),
                                    replies[i],
                                )
                        }
                    &&& match entry_unless_lost(outcome) {
                        Ok(taken) => replies.len() == old(self)@.borrowed.len() && asked.pops(
                            taken,
                            final(self)@,
                        ),
                        Err(_) => {
                            &&& replies.len() < old(self)@.borrowed.len()
                            &&& final(self)@ == asked
                            &&& exists|
                                handle: &mut Receiver<PriorityItem<T, P>>,
                                task: &mut Context<'_>,
                            |
                                *handle == old(self)@.borrowed[replies.len() as int] && *task == *old(cx)
                                    && #[trigger] call_ensures(
                                    poll_recv::<PriorityItem<T, P>>,
                                    (handle, task),
                                    Reply::Lost,
                                )
                        },
                    }
                },
            outcome matches Ok(None) ==> final(self)@.ready.len() == 0 && (forall|k: int|
                    0 <= k < final(self)@.borrowed.len() ==> {
                        &&& old(self)@.borrowed.contains(#[trigger] final(self)@.borrowed[k])
                        &&& exists|
                            handle: &mut Receiver<PriorityItem<T, P>>,
                            task: &mut Context<'_>,
                        |
                            *handle == final(self)@.borrowed[k] && *task == *old(cx)
                                && #[trigger] call_ensures(
                                poll_recv::<PriorityItem<T, P>>,
                                (handle, task),
                                Reply::Waiting,
                            )
                    }),
    {
        let outcome = match poll_all_borrowed_and_push_back_ready(
            &mut self.ready,
            &mut self.borrowed,
            cx,
        ) {
            Ok(_) => Ok(part(PoolStore::pop(&mut self.ready))),
            Err(loss) => Err(loss),
        };
        proof {
            law_pop_is_answered(old(self)@, Some(*old(cx)), entry_unless_lost(outcome), self@);
            if outcome matches Ok(None) {
                assert forall|k: int| 0 <= k < self@.borrowed.len() implies {
                        &&& old(self)@.borrowed.contains(#[trigger] self@.borrowed[k])
                        &&& exists|
                            handle: &mut Receiver<PriorityItem<T, P>>,
                            task: &mut Context<'_>,
                        |
                            *handle == self@.borrowed[k] && *task == *old(cx)
                                && #[trigger] call_ensures(
                                poll_recv::<PriorityItem<T, P>>,
                                (handle, task),
                                Reply::Waiting,
                            )
                } by {
                    law_none_popped_while_all_wait(old(self)@, Some(*old(cx)), self@, k);
                }
            }
            lemma_ready_stays(old(self)@);
            if old(self)@.borrowed.len() == 0 {
                lemma_nothing_out(old(self)@);
            }
            if old(self)@.valid() && forall|i: int|
                0 <= i < old(self)@.borrowed.len() ==> (#[trigger] old(self)@.borrowed[i])@ is Ok {
                law_pop_reports_true_losses(
                    old(self)@,
                    Some(*old(cx)),
                    entry_unless_lost(outcome),
                    self@,
                );
            }
            law_pop_count(old(self)@, Some(*old(cx)), entry_unless_lost(outcome), self@);
        }
        outcome
    }

    /// Removes an item of the highest priority from the pool. The item is had by polling what this
    /// returns.
    pub fn pop(&mut self) -> (request: Pop<'_, T, P>)
        ensures
            *request.pool == *old(self),
            *final(request.pool) == *final(self),
    {
        Pop { pool: self }
    }
}

/// A request for a [`PooledItem`] from a [`PriorityPool`].
#[verifier::reject_recursive_types(T)]
#[verifier::reject_recursive_types(P)]
pub struct Get<'a, T, P: Ord> {
    /// The pool that the item is asked of.
    pub pool: &'a mut PriorityPool<T, P>,
}

impl<'a, T, P: Ord> Get<'a, T, P> {
    /// Asks for the item once more, as [`PriorityPool::poll_get`].
    pub fn poll(&mut self, cx: &mut Context<'_>) -> (outcome: Result<
        Option<PooledItem<T, P>>,
        ItemLost,
    >)
        requires
            (*old(self).pool).wf(),
        ensures
            (*old(self).pool)@.valid() ==> (*final(self).pool)@.valid(),
            (*final(self).pool).wf(),
            (*old(self).pool)@.lends_unless_lost(
                Some(*old(cx)),
                loan_unless_lost(outcome),
                (*final(self).pool)@,
            ),
            (*final(self).pool)@.count() == (*old(self).pool)@.count(),
            *final(final(self).pool) == *final(old(self).pool),
            *final(cx) == *old(cx),
            outcome matches Ok(None) ==> (*final(self).pool)@.ready.len() == 0 && (forall|k: int|
                    0 <= k < (*final(self).pool)@.borrowed.len() ==> {
                        &&& (*old(self).pool)@.borrowed.contains(
                            #[trigger] (*final(self).pool)@.borrowed[k],
                        )
                        &&& exists|
                            handle: &mut Receiver<PriorityItem<T, P>>,
                            task: &mut Context<'_>,
                        |
                            *handle == (*final(self).pool)@.borrowed[k] && *task == *old(cx)
                                && #[trigger] call_ensures(
                                poll_recv::<PriorityItem<T, P>>,
                                (handle, task),
                                Reply::Waiting,
                            )
                    }),
    {
        self.pool.poll_get(cx)
    }
}

/// A request to remove an item from a [`PriorityPool`].
#[verifier::reject_recursive_types(T)]
#[verifier::reject_recursive_types(P)]
pub struct Pop<'a, T, P: Ord> {
    /// The pool that the item is asked of.
    pub pool: &'a mut PriorityPool<T, P>,
}

impl<'a, T, P: Ord> Pop<'a, T, P> {
    /// Asks for the item once more, as [`PriorityPool::poll_pop`].
    pub fn poll(&mut self, cx: &mut Context<'_>) -> (outcome: Result<Option<(T, P)>, ItemLost>)
        requires
            (*old(self).pool).wf(),
        ensures
            (*old(self).pool)@.valid() ==> (*final(self).pool)@.valid(),
            (*final(self).pool).wf(),
            (*old(self).pool)@.pops_unless_lost(
                Some(*old(cx)),
                entry_unless_lost(outcome),
                (*final(self).pool)@,
            ),
            (*final(self).pool)@.count() == (*old(self).pool)@.count() - (if outcome matches Ok(
                Some(_),
            ) {
                1int
            } else {
                0int
            }),
            *final(final(self).pool) == *final(old(self).pool),
            *final(cx) == *old(cx),
            outcome matches Ok(None) ==> (*final(self).pool)@.ready.len() == 0 && (forall|k: int|
                    0 <= k < (*final(self).pool)@.borrowed.len() ==> {
                        &&& (*old(self).pool)@.borrowed.contains(
                            #[trigger] (*final(self).pool)@.borrowed[k],
                        )
                        &&& exists|
                            handle: &mut Receiver<PriorityItem<T, P>>,
                            task: &mut Context<'_>,
                        |
                            *handle == (*final(self).pool)@.borrowed[k] && *task == *old(cx)
                                && #[trigger] call_ensures(
                                poll_recv::<PriorityItem<T, P>>,
                                (handle, task),
                                Reply::Waiting,
                            )
                    }),
    {
        self.pool.poll_pop(cx)
    }
}

} // verus!
