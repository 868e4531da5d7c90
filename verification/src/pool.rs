//! A regular pool.

use crate::channel::{
    law_reply_is_an_answer, law_reply_is_resolution, poll_recv, replied, try_recv, ItemLost, Reply,
};
use crate::internal::{
    lend, poll_all_borrowed_and_push_back_ready, try_recv_from_borrowed,
    try_recv_from_borrowed_or_lost, PoolStore,
};
use crate::lease::{Lease, Loan};
use crate::round::{
    all_asked, asked_until_lost, law_each_reply_has_its_effect, law_returned_is_what_was_handed_out,
    law_returned_items, law_waiting_is_what_said_so, law_waiting_receiver_stays,
    lemma_waiting_contains, returned,
};
use crate::sequence::{shrink_deque, shrink_vec};
use crate::state::{
    law_lend_count, law_lend_is_answered, law_lend_reports_true_losses, law_none_lent_in_vain,
    law_none_lent_while_all_wait, law_none_popped_in_vain, law_none_popped_while_all_wait,
    law_pop_count, law_pop_is_answered, law_pop_reports_true_losses, law_put_count,
    law_tried_lend_count, law_tried_lend_is_answered, law_tried_pop_count,
    law_tried_pop_is_answered, lemma_nothing_out, PoolState,
};
use futures_channel::oneshot::{channel, Receiver};
use std::collections::VecDeque;
use std::ops::{Deref, DerefMut};
use std::task::Context;
use vstd::future::FutureAdditionalSpecFns;
use vstd::prelude::*;

verus! {

/// An item that is borrowed from a [`Pool`].
///
/// Dropping it returns the item to the pool.
#[verifier::reject_recursive_types(T)]
pub struct PooledItem<T> {
    lease: Lease<T>,
}

impl<T> PooledItem<T> {
    #[verifier::type_invariant]
    spec fn wf(self) -> bool {
        self.lease@ is Some
    }

    /// The item that is out, with the sender that it goes back through when it is dropped.
    pub closed spec fn loan(self) -> Loan<T> {
        self.lease@->Some_0
    }

    fn new(loan: Loan<T>) -> (pooled: Self)
        ensures
            pooled.loan() == loan,
    {
        PooledItem { lease: Lease::new(loan.message, loan.sender) }
    }

    /// Gets a reference to the item.
    pub fn item(&self) -> (item: &T)
        ensures
            *item == self.loan().message,
    {
        proof {
            use_type_invariant(self);
        }
        self.lease.message()
    }

    /// Gets a mutable reference to the item.
    pub fn item_mut(&mut self) -> (item: &mut T)
        ensures
            *item == old(self).loan().message,
            final(self).loan() == (Loan {
                message: *final(item),
                sender: old(self).loan().sender,
            }),
    {
        proof {
            use_type_invariant(&*self);
        }
        self.lease.message_mut()
    }
}

impl<T> Deref for PooledItem<T> {
    type Target = T;

    fn deref(&self) -> (item: &T)
        ensures
            *item == self.loan().message,
    {
        self.item()
    }
}

impl<T> DerefMut for PooledItem<T> {
    fn deref_mut(&mut self) -> (item: &mut T)
        ensures
            *item == old(self).loan().message,
            final(self).loan() == (Loan {
                message: *final(item),
                sender: old(self).loan().sender,
            }),
    {
        self.item_mut()
    }
}

/// The loan of a borrowed item, if there is one.
pub open spec fn loan_of<T>(lent: Option<PooledItem<T>>) -> Option<Loan<T>> {
    match lent {
        Some(pooled) => Some(pooled.loan()),
        None => None,
    }
}

/// The loan of a borrowed item, if there is one and no item was found lost.
pub open spec fn loan_unless_lost<T>(outcome: Result<Option<PooledItem<T>>, ItemLost>) -> Result<
    Option<Loan<T>>,
    ItemLost,
> {
    match outcome {
        Ok(lent) => Ok(loan_of(lent)),
        Err(loss) => Err(loss),
    }
}

/// A pool of generic items.
///
/// Internally it maintains two lists: one of ready items and one of borrowed.
#[derive(Debug)]
#[verifier::reject_recursive_types(T)]
pub struct Pool<T> {
    ready: VecDeque<T>,
    borrowed: Vec<Receiver<T>>,
}

impl<T> View for Pool<T> {
    type V = PoolState<VecDeque<T>>;

    closed spec fn view(&self) -> PoolState<VecDeque<T>> {
        PoolState::of(self.ready, self.borrowed)
    }
}

impl<T> Default for Pool<T> {
    fn default() -> (pool: Self)
        ensures
            pool@.valid(),
            pool@.ready == Seq::<T>::empty(),
            pool@.borrowed == Seq::<Receiver<T>>::empty(),
    {
        Pool::new()
    }
}

/// Items leave in the order in which they became ready: one that is ready is lent out first, those
/// behind it stay in their order, and what came back stands behind them.
pub proof fn law_first_ready_first_lent<T>(
    pool: PoolState<VecDeque<T>>,
    replies: Seq<Reply<T>>,
    lent: Option<Loan<T>>,
    next: PoolState<VecDeque<T>>,
)
    requires
        pool.after(replies).lends(lent, next),
        pool.ready.len() > 0,
    ensures
        lent matches Some(loan) && loan.message == pool.ready[0],
        next.ready == pool.ready.drop_first() + returned(replies),
{
    assert(pool.after(replies).ready.drop_first() =~= pool.ready.drop_first() + returned(replies));
}

/// Items are popped in the order in which they became ready, as they are lent out.
pub proof fn law_first_ready_first_popped<T>(
    pool: PoolState<VecDeque<T>>,
    replies: Seq<Reply<T>>,
    taken: Option<T>,
    next: PoolState<VecDeque<T>>,
)
    requires
        pool.after(replies).pops(taken, next),
        pool.ready.len() > 0,
    ensures
        taken == Some(pool.ready[0]),
        next.ready == pool.ready.drop_first() + returned(replies),
{
    assert(pool.after(replies).ready.drop_first() =~= pool.ready.drop_first() + returned(replies));
}

/// An item that was put into a pool with nothing ready is the next to be popped, and popping it
/// leaves the pool as it was.
pub proof fn law_put_then_pop<T>(pool: PoolState<VecDeque<T>>, item: T)
    requires
        pool.ready.len() == 0,
    ensures
        pool.with(item).pops(Some(item), pool),
{
    assert(pool.with(item).ready.drop_first() =~= pool.ready);
}

/// What trying to get an item does: each receiver has an answer that the channel gave for it; what
/// was ready and what was handed out are available, and of them the one that became ready first is
/// lent out, and none only if none is available; and of the receivers those are kept that were told
/// to wait, with a new one for the loan.
pub proof fn law_get_tried<T>(
    pool: PoolState<VecDeque<T>>,
    lent: Option<Loan<T>>,
    next: PoolState<VecDeque<T>>,
)
    requires
        pool.tries_to_lend(lent, next),
    ensures
        exists|replies: Seq<Reply<T>>|
            {
                let asked = #[trigger] pool.borrowed.take(replies.len() as int).zip_with(replies);
                let back = replies.filter(|reply: Reply<T>| reply is Returned).map_values(
                    |reply: Reply<T>| reply->Returned_0,
                );
                let out = asked.filter(
                    |asked: (Receiver<T>, Reply<T>)| asked.1 is Waiting,
                ).map_values(|asked: (Receiver<T>, Reply<T>)| asked.0);
                let available = pool.ready + back;
                &&& replies.len() == pool.borrowed.len()
                &&& forall|i: int|
                    0 <= i < replies.len() ==> {
                        &&& match #[trigger] replies[i] {
                            Reply::Returned(item) => available.contains(item),
                            Reply::Waiting => out.contains(pool.borrowed[i]),
                            Reply::Lost => true,
                        }
                        &&& exists|handle: &mut Receiver<T>|
                            *handle == pool.borrowed[i] && #[trigger] call_ensures(
                                try_recv::<T>,
                                (handle,),
                                replies[i],
                            )
                    }
                &&& match lent {
                    Some(loan) => {
                        &&& available.len() > 0
                        &&& loan.message == available[0]
                        &&& next.ready == available.drop_first()
                        &&& next.borrowed.len() == out.len() + 1
                        &&& next.borrowed.drop_last() == out
                        &&& call_ensures(channel::<T>, (), (loan.sender, next.borrowed.last()))
                    },
                    None => available.len() == 0 && next.ready == available && next.borrowed == out,
                }
            },
{
    let replies = choose|replies: Seq<Reply<T>>|
        all_asked(None, pool.borrowed, replies) && (#[trigger] pool.after(replies)).lends(
            lent,
            next,
        );
    law_each_reply_has_its_effect(None, pool.borrowed, replies);
    law_returned_is_what_was_handed_out(replies);
    law_waiting_is_what_said_so(pool.borrowed, replies);
    let back = replies.filter(|reply: Reply<T>| reply is Returned).map_values(
        |reply: Reply<T>| reply->Returned_0,
    );
    let out = pool.borrowed.take(replies.len() as int).zip_with(replies).filter(
        |asked: (Receiver<T>, Reply<T>)| asked.1 is Waiting,
    ).map_values(|asked: (Receiver<T>, Reply<T>)| asked.0);
    let available = pool.ready + back;
    assert(pool.after(replies).ready == available);
    assert(pool.after(replies).borrowed =~= out + pool.borrowed.skip(replies.len() as int));
    if replies.len() == pool.borrowed.len() {
        assert(pool.after(replies).borrowed =~= out);
    }
    VecDeque::<T>::law_with_all(pool.ready, back);
    assert forall|i: int| 0 <= i < replies.len() implies match #[trigger] replies[i] {
        Reply::Returned(item) => available.contains(item),
        Reply::Waiting => out.contains(pool.borrowed[i]),
        Reply::Lost => true,
    } by {
        match replies[i] {
            Reply::Returned(item) => {
                assert(back.contains(item));
                assert(VecDeque::<T>::holds(available, item));
            },
            Reply::Waiting => lemma_waiting_contains(pool.borrowed, replies, i),
            Reply::Lost => {},
        }
    }
}

/// What getting an item does, by an attempt or by a poll: each receiver has an answer that the
/// channel gave for it, with `cx` if there is one, up to the first that reports a loss; what was
/// ready and what was handed out are available, and of them the one that became ready first is lent
/// out, and none only if none is available; and of the receivers those are kept that were told to
/// wait, with a new one for the loan.
pub proof fn law_get_or_lost<'c, T>(
    pool: PoolState<VecDeque<T>>,
    cx: Option<Context<'c>>,
    outcome: Result<Option<Loan<T>>, ItemLost>,
    next: PoolState<VecDeque<T>>,
)
    requires
        pool.lends_unless_lost(cx, outcome, next),
    ensures
        exists|replies: Seq<Reply<T>>|
            {
                let asked = #[trigger] pool.borrowed.take(replies.len() as int).zip_with(replies);
                let back = replies.filter(|reply: Reply<T>| reply is Returned).map_values(
                    |reply: Reply<T>| reply->Returned_0,
                );
                let out = asked.filter(
                    |asked: (Receiver<T>, Reply<T>)| asked.1 is Waiting,
                ).map_values(|asked: (Receiver<T>, Reply<T>)| asked.0);
                let available = pool.ready + back;
                &&& replies.len() <= pool.borrowed.len()
                &&& forall|i: int|
                    0 <= i < replies.len() ==> {
                        &&& match #[trigger] replies[i] {
                            Reply::Returned(item) => available.contains(item),
                            Reply::Waiting => out.contains(pool.borrowed[i]),
                            Reply::Lost => false,
                        }
                        &&& match cx {
                            Some(cx) => exists|
                                handle: &mut Receiver<T>,
                                task: &mut Context<'c>,
                            |
                                *handle == pool.borrowed[i] && *task == cx
                                    && #[trigger] call_ensures(
                                    poll_recv::<T>,
                                    (handle, task),
                                    replies[i],
                                ),
                            None => exists|handle: &mut Receiver<T>|
                            *handle == pool.borrowed[i] && #[trigger] call_ensures(
                                try_recv::<T>,
                                (handle,),
                                replies[i],
                            ),
                        }
                    }
                &&& match outcome {
                    Ok(lent) => replies.len() == pool.borrowed.len() && match lent {
                            Some(loan) => {
                                &&& available.len() > 0
                                &&& loan.message == available[0]
                                &&& next.ready == available.drop_first()
                                &&& next.borrowed.len() == out.len() + 1
                                &&& next.borrowed.drop_last() == out
                                &&& call_ensures(
                                    channel::<T>,
                                    (),
                                    (loan.sender, next.borrowed.last()),
                                )
                            },
                            None => {
                                &&& available.len() == 0
                                &&& next.ready == available
                                &&& next.borrowed == out
                            },
                        },
                    Err(_) => {
                        &&& replies.len() < pool.borrowed.len()
                        &&& next.ready == available
                        &&& next.borrowed == out + pool.borrowed.skip(replies.len() as int)
                        &&& match cx {
                            Some(cx) => exists|
                                handle: &mut Receiver<T>,
                                task: &mut Context<'c>,
                            |
                                *handle == pool.borrowed[replies.len() as int] && *task == cx
                                    && #[trigger] call_ensures(
                                    poll_recv::<T>,
                                    (handle, task),
                                    Reply::Lost,
                                ),
                            None => exists|handle: &mut Receiver<T>|
                                *handle == pool.borrowed[replies.len() as int]
                                    && #[trigger] call_ensures(
                                    try_recv::<T>,
                                    (handle,),
                                    Reply::Lost,
                                ),
                        }
                    },
                }
            },
{
    let replies = choose|replies: Seq<Reply<T>>|
        {
            let asked = #[trigger] pool.after(replies);
            &&& asked_until_lost(cx, pool.borrowed, replies, outcome)
            &&& match outcome {
                Ok(lent) => asked.lends(lent, next),
                Err(_) => next == asked,
            }
        };
    law_each_reply_has_its_effect(cx, pool.borrowed, replies);
    law_returned_is_what_was_handed_out(replies);
    law_waiting_is_what_said_so(pool.borrowed, replies);
    if outcome is Err {
        law_reply_is_an_answer(cx, pool.borrowed[replies.len() as int], Reply::Lost);
    }
    let back = replies.filter(|reply: Reply<T>| reply is Returned).map_values(
        |reply: Reply<T>| reply->Returned_0,
    );
    let out = pool.borrowed.take(replies.len() as int).zip_with(replies).filter(
        |asked: (Receiver<T>, Reply<T>)| asked.1 is Waiting,
    ).map_values(|asked: (Receiver<T>, Reply<T>)| asked.0);
    let available = pool.ready + back;
    assert(pool.after(replies).ready == available);
    assert(pool.after(replies).borrowed =~= out + pool.borrowed.skip(replies.len() as int));
    if replies.len() == pool.borrowed.len() {
        assert(pool.after(replies).borrowed =~= out);
    }
    VecDeque::<T>::law_with_all(pool.ready, back);
    assert forall|i: int| 0 <= i < replies.len() implies match #[trigger] replies[i] {
        Reply::Returned(item) => available.contains(item),
        Reply::Waiting => out.contains(pool.borrowed[i]),
        Reply::Lost => false,
    } by {
        match replies[i] {
            Reply::Returned(item) => {
                assert(back.contains(item));
                assert(VecDeque::<T>::holds(available, item));
            },
            Reply::Waiting => lemma_waiting_contains(pool.borrowed, replies, i),
            Reply::Lost => {},
        }
    }
}

/// What trying to pop an item does: each receiver has an answer that the channel gave for it; what
/// was ready and what was handed out are available, and of them the one that became ready first is
/// taken out, and none only if none is available; and of the receivers those are kept that were
/// told to wait.
pub proof fn law_pop_tried<T>(
    pool: PoolState<VecDeque<T>>,
    taken: Option<T>,
    next: PoolState<VecDeque<T>>,
)
    requires
        pool.tries_to_pop(taken, next),
    ensures
        exists|replies: Seq<Reply<T>>|
            {
                let asked = #[trigger] pool.borrowed.take(replies.len() as int).zip_with(replies);
                let back = replies.filter(|reply: Reply<T>| reply is Returned).map_values(
                    |reply: Reply<T>| reply->Returned_0,
                );
                let out = asked.filter(
                    |asked: (Receiver<T>, Reply<T>)| asked.1 is Waiting,
                ).map_values(|asked: (Receiver<T>, Reply<T>)| asked.0);
                let available = pool.ready + back;
                &&& replies.len() == pool.borrowed.len()
                &&& forall|i: int|
                    0 <= i < replies.len() ==> {
                        &&& match #[trigger] replies[i] {
                            Reply::Returned(item) => available.contains(item),
                            Reply::Waiting => out.contains(pool.borrowed[i]),
                            Reply::Lost => true,
                        }
                        &&& exists|handle: &mut Receiver<T>|
                            *handle == pool.borrowed[i] && #[trigger] call_ensures(
                                try_recv::<T>,
                                (handle,),
                                replies[i],
                            )
                    }
                &&& match taken {
                    Some(item) => {
                        &&& available.len() > 0
                        &&& item == available[0]
                        &&& next.ready == available.drop_first()
                        &&& next.borrowed == out
                    },
                    None => available.len() == 0 && next.ready == available && next.borrowed == out,
                }
            },
{
    let replies = choose|replies: Seq<Reply<T>>|
        all_asked(None, pool.borrowed, replies) && (#[trigger] pool.after(replies)).pops(
            taken,
            next,
        );
    law_each_reply_has_its_effect(None, pool.borrowed, replies);
    law_returned_is_what_was_handed_out(replies);
    law_waiting_is_what_said_so(pool.borrowed, replies);
    let back = replies.filter(|reply: Reply<T>| reply is Returned).map_values(
        |reply: Reply<T>| reply->Returned_0,
    );
    let out = pool.borrowed.take(replies.len() as int).zip_with(replies).filter(
        |asked: (Receiver<T>, Reply<T>)| asked.1 is Waiting,
    ).map_values(|asked: (Receiver<T>, Reply<T>)| asked.0);
    let available = pool.ready + back;
    assert(pool.after(replies).ready == available);
    assert(pool.after(replies).borrowed =~= out + pool.borrowed.skip(replies.len() as int));
    if replies.len() == pool.borrowed.len() {
        assert(pool.after(replies).borrowed =~= out);
    }
    VecDeque::<T>::law_with_all(pool.ready, back);
    assert forall|i: int| 0 <= i < replies.len() implies match #[trigger] replies[i] {
        Reply::Returned(item) => available.contains(item),
        Reply::Waiting => out.contains(pool.borrowed[i]),
        Reply::Lost => true,
    } by {
        match replies[i] {
            Reply::Returned(item) => {
                assert(back.contains(item));
                assert(VecDeque::<T>::holds(available, item));
            },
            Reply::Waiting => lemma_waiting_contains(pool.borrowed, replies, i),
            Reply::Lost => {},
        }
    }
}

/// What popping an item does, by an attempt or by a poll: each receiver has an answer that the
/// channel gave for it, with `cx` if there is one, up to the first that reports a loss; what was
/// ready and what was handed out are available, and of them the one that became ready first is
/// taken out, and none only if none is available; and of the receivers those are kept that were
/// told to wait.
pub proof fn law_pop_or_lost<'c, T>(
    pool: PoolState<VecDeque<T>>,
    cx: Option<Context<'c>>,
    outcome: Result<Option<T>, ItemLost>,
    next: PoolState<VecDeque<T>>,
)
    requires
        pool.pops_unless_lost(cx, outcome, next),
    ensures
        exists|replies: Seq<Reply<T>>|
            {
                let asked = #[trigger] pool.borrowed.take(replies.len() as int).zip_with(replies);
                let back = replies.filter(|reply: Reply<T>| reply is Returned).map_values(
                    |reply: Reply<T>| reply->Returned_0,
                );
                let out = asked.filter(
                    |asked: (Receiver<T>, Reply<T>)| asked.1 is Waiting,
                ).map_values(|asked: (Receiver<T>, Reply<T>)| asked.0);
                let available = pool.ready + back;
                &&& replies.len() <= pool.borrowed.len()
                &&& forall|i: int|
                    0 <= i < replies.len() ==> {
                        &&& match #[trigger] replies[i] {
                            Reply::Returned(item) => available.contains(item),
                            Reply::Waiting => out.contains(pool.borrowed[i]),
                            Reply::Lost => false,
                        }
                        &&& match cx {
                            Some(cx) => exists|
                                handle: &mut Receiver<T>,
                                task: &mut Context<'c>,
                            |
                                *handle == pool.borrowed[i] && *task == cx
                                    && #[trigger] call_ensures(
                                    poll_recv::<T>,
                                    (handle, task),
                                    replies[i],
                                ),
                            None => exists|handle: &mut Receiver<T>|
                            *handle == pool.borrowed[i] && #[trigger] call_ensures(
                                try_recv::<T>,
                                (handle,),
                                replies[i],
                            ),
                        }
                    }
                &&& match outcome {
                    Ok(taken) => replies.len() == pool.borrowed.len() && match taken {
                            Some(item) => {
                                &&& available.len() > 0
                                &&& item == available[0]
                                &&& next.ready == available.drop_first()
                                &&& next.borrowed == out
                            },
                            None => {
                                &&& available.len() == 0
                                &&& next.ready == available
                                &&& next.borrowed == out
                            },
                        },
                    Err(_) => {
                        &&& replies.len() < pool.borrowed.len()
                        &&& next.ready == available
                        &&& next.borrowed == out + pool.borrowed.skip(replies.len() as int)
                        &&& match cx {
                            Some(cx) => exists|
                                handle: &mut Receiver<T>,
                                task: &mut Context<'c>,
                            |
                                *handle == pool.borrowed[replies.len() as int] && *task == cx
                                    && #[trigger] call_ensures(
                                    poll_recv::<T>,
                                    (handle, task),
                                    Reply::Lost,
                                ),
                            None => exists|handle: &mut Receiver<T>|
                                *handle == pool.borrowed[replies.len() as int]
                                    && #[trigger] call_ensures(
                                    try_recv::<T>,
                                    (handle,),
                                    Reply::Lost,
                                ),
                        }
                    },
                }
            },
{
    let replies = choose|replies: Seq<Reply<T>>|
        {
            let asked = #[trigger] pool.after(replies);
            &&& asked_until_lost(cx, pool.borrowed, replies, outcome)
            &&& match outcome {
                Ok(taken) => asked.pops(taken, next),
                Err(_) => next == asked,
            }
        };
    law_each_reply_has_its_effect(cx, pool.borrowed, replies);
    law_returned_is_what_was_handed_out(replies);
    law_waiting_is_what_said_so(pool.borrowed, replies);
    if outcome is Err {
        law_reply_is_an_answer(cx, pool.borrowed[replies.len() as int], Reply::Lost);
    }
    let back = replies.filter(|reply: Reply<T>| reply is Returned).map_values(
        |reply: Reply<T>| reply->Returned_0,
    );
    let out = pool.borrowed.take(replies.len() as int).zip_with(replies).filter(
        |asked: (Receiver<T>, Reply<T>)| asked.1 is Waiting,
    ).map_values(|asked: (Receiver<T>, Reply<T>)| asked.0);
    let available = pool.ready + back;
    assert(pool.after(replies).ready == available);
    assert(pool.after(replies).borrowed =~= out + pool.borrowed.skip(replies.len() as int));
    if replies.len() == pool.borrowed.len() {
        assert(pool.after(replies).borrowed =~= out);
    }
    VecDeque::<T>::law_with_all(pool.ready, back);
    assert forall|i: int| 0 <= i < replies.len() implies match #[trigger] replies[i] {
        Reply::Returned(item) => available.contains(item),
        Reply::Waiting => out.contains(pool.borrowed[i]),
        Reply::Lost => false,
    } by {
        match replies[i] {
            Reply::Returned(item) => {
                assert(back.contains(item));
                assert(VecDeque::<T>::holds(available, item));
            },
            Reply::Waiting => lemma_waiting_contains(pool.borrowed, replies, i),
            Reply::Lost => {},
        }
    }
}

/// Trying to get an item overlooks no item that came back: for each receiver that resolves to an
/// item, either the channel said just then that the item is still out, and the receiver is kept, or
/// there is an item for the caller, and it is this one or this one is ready.
pub proof fn law_get_overlooks_no_returned_item<T>(
    pool: PoolState<VecDeque<T>>,
    lent: Option<Loan<T>>,
    next: PoolState<VecDeque<T>>,
    i: int,
)
    requires
        pool.valid(),
        pool.tries_to_lend(lent, next),
        0 <= i < pool.borrowed.len(),
        pool.borrowed[i]@ is Ok,
    ensures
        ({
            &&& next.borrowed.contains(pool.borrowed[i])
            &&& exists|handle: &mut Receiver<T>|
                *handle == pool.borrowed[i] && #[trigger] call_ensures(
                    try_recv::<T>,
                    (handle,),
                    Reply::Waiting,
                )
        }) || (lent matches Some(loan) && (loan.message == pool.borrowed[i]@->Ok_0 || next.ready.contains(
            pool.borrowed[i]@->Ok_0,
        ))),
{
    let replies = choose|replies: Seq<Reply<T>>|
        all_asked(None, pool.borrowed, replies) && (#[trigger] pool.after(replies)).lends(
            lent,
            next,
        );
    let asked = pool.after(replies);
    let rx = pool.borrowed[i];
    assert(replied(None, rx, replies[i]));
    law_reply_is_resolution(None, rx, replies[i]);
    law_reply_is_an_answer(None, rx, replies[i]);
    match replies[i] {
        Reply::Waiting => {
            law_waiting_receiver_stays(pool.borrowed, replies, i);
            let k = asked.borrowed.index_of(rx);
            assert(next.borrowed[k] == rx) by {
                if lent is Some && next.borrowed.len() > asked.borrowed.len() {
                    assert(next.borrowed.drop_last()[k] == rx);
                }
            }
        },
        Reply::Returned(item) => {
            law_returned_items(replies, item);
            VecDeque::<T>::law_with_all(pool.ready, returned(replies));
            assert(VecDeque::<T>::holds(asked.ready, item));
            lemma_others_stay(asked.ready, item);
        },
        Reply::Lost => {},
    }
}

/// Getting an item, by an attempt or by a poll, overlooks no item that came back: for each receiver
/// that resolves to an item, either the channel said just then that the item is still out, and the
/// receiver is kept, or there is an item for the caller, and it is this one or this one is ready.
pub proof fn law_get_or_lost_overlooks_no_returned_item<'c, T>(
    pool: PoolState<VecDeque<T>>,
    cx: Option<Context<'c>>,
    lent: Option<Loan<T>>,
    next: PoolState<VecDeque<T>>,
    i: int,
)
    requires
        pool.valid(),
        pool.lends_unless_lost(cx, Ok(lent), next),
        0 <= i < pool.borrowed.len(),
        pool.borrowed[i]@ is Ok,
    ensures
        ({
            &&& next.borrowed.contains(pool.borrowed[i])
            &&& match cx {
                Some(cx) => exists|handle: &mut Receiver<T>, task: &mut Context<'c>|
                    *handle == pool.borrowed[i] && *task == cx && #[trigger] call_ensures(
                        poll_recv::<T>,
                        (handle, task),
                        Reply::Waiting,
                    ),
                None => exists|handle: &mut Receiver<T>|
                    *handle == pool.borrowed[i] && #[trigger] call_ensures(
                        try_recv::<T>,
                        (handle,),
                        Reply::Waiting,
                    ),
            }
        }) || (lent matches Some(loan) && (loan.message == pool.borrowed[i]@->Ok_0 || next.ready.contains(
            pool.borrowed[i]@->Ok_0,
        ))),
{
    let replies = choose|replies: Seq<Reply<T>>|
        asked_until_lost(cx, pool.borrowed, replies, Ok::<Option<Loan<T>>, ItemLost>(lent))
            && (#[trigger] pool.after(replies)).lends(lent, next);
    let asked = pool.after(replies);
    let rx = pool.borrowed[i];
    assert(replied(cx, rx, replies[i]));
    law_reply_is_resolution(cx, rx, replies[i]);
    law_reply_is_an_answer(cx, rx, replies[i]);
    match replies[i] {
        Reply::Waiting => {
            law_waiting_receiver_stays(pool.borrowed, replies, i);
            let k = asked.borrowed.index_of(rx);
            assert(next.borrowed[k] == rx) by {
                if lent is Some && next.borrowed.len() > asked.borrowed.len() {
                    assert(next.borrowed.drop_last()[k] == rx);
                }
            }
        },
        Reply::Returned(item) => {
            law_returned_items(replies, item);
            VecDeque::<T>::law_with_all(pool.ready, returned(replies));
            assert(VecDeque::<T>::holds(asked.ready, item));
            lemma_others_stay(asked.ready, item);
        },
        Reply::Lost => {},
    }
}

/// Trying to pop an item overlooks no item that came back: for each receiver that resolves to an
/// item, either the channel said just then that the item is still out, and the receiver is kept, or
/// there is an item for the caller, and it is this one or this one is ready.
pub proof fn law_pop_overlooks_no_returned_item<T>(
    pool: PoolState<VecDeque<T>>,
    taken: Option<T>,
    next: PoolState<VecDeque<T>>,
    i: int,
)
    requires
        pool.valid(),
        pool.tries_to_pop(taken, next),
        0 <= i < pool.borrowed.len(),
        pool.borrowed[i]@ is Ok,
    ensures
        ({
            &&& next.borrowed.contains(pool.borrowed[i])
            &&& exists|handle: &mut Receiver<T>|
                *handle == pool.borrowed[i] && #[trigger] call_ensures(
                    try_recv::<T>,
                    (handle,),
                    Reply::Waiting,
                )
        }) || (taken matches Some(item) && (item == pool.borrowed[i]@->Ok_0 || next.ready.contains(
            pool.borrowed[i]@->Ok_0,
        ))),
{
    let replies = choose|replies: Seq<Reply<T>>|
        all_asked(None, pool.borrowed, replies) && (#[trigger] pool.after(replies)).pops(
            taken,
            next,
        );
    let asked = pool.after(replies);
    let rx = pool.borrowed[i];
    assert(replied(None, rx, replies[i]));
    law_reply_is_resolution(None, rx, replies[i]);
    law_reply_is_an_answer(None, rx, replies[i]);
    match replies[i] {
        Reply::Waiting => {
            law_waiting_receiver_stays(pool.borrowed, replies, i);
            let k = asked.borrowed.index_of(rx);
            assert(next.borrowed[k] == rx) by {
                if taken is Some && next.borrowed.len() > asked.borrowed.len() {
                    assert(next.borrowed.drop_last()[k] == rx);
                }
            }
        },
        Reply::Returned(item) => {
            law_returned_items(replies, item);
            VecDeque::<T>::law_with_all(pool.ready, returned(replies));
            assert(VecDeque::<T>::holds(asked.ready, item));
            lemma_others_stay(asked.ready, item);
        },
        Reply::Lost => {},
    }
}

/// Popping an item, by an attempt or by a poll, overlooks no item that came back: for each receiver
/// that resolves to an item, either the channel said just then that the item is still out, and the
/// receiver is kept, or there is an item for the caller, and it is this one or this one is ready.
pub proof fn law_pop_or_lost_overlooks_no_returned_item<'c, T>(
    pool: PoolState<VecDeque<T>>,
    cx: Option<Context<'c>>,
    taken: Option<T>,
    next: PoolState<VecDeque<T>>,
    i: int,
)
    requires
        pool.valid(),
        pool.pops_unless_lost(cx, Ok(taken), next),
        0 <= i < pool.borrowed.len(),
        pool.borrowed[i]@ is Ok,
    ensures
        ({
            &&& next.borrowed.contains(pool.borrowed[i])
            &&& match cx {
                Some(cx) => exists|handle: &mut Receiver<T>, task: &mut Context<'c>|
                    *handle == pool.borrowed[i] && *task == cx && #[trigger] call_ensures(
                        poll_recv::<T>,
                        (handle, task),
                        Reply::Waiting,
                    ),
                None => exists|handle: &mut Receiver<T>|
                    *handle == pool.borrowed[i] && #[trigger] call_ensures(
                        try_recv::<T>,
                        (handle,),
                        Reply::Waiting,
                    ),
            }
        }) || (taken matches Some(item) && (item == pool.borrowed[i]@->Ok_0 || next.ready.contains(
            pool.borrowed[i]@->Ok_0,
        ))),
{
    let replies = choose|replies: Seq<Reply<T>>|
        asked_until_lost(cx, pool.borrowed, replies, Ok::<Option<T>, ItemLost>(taken))
            && (#[trigger] pool.after(replies)).pops(taken, next);
    let asked = pool.after(replies);
    let rx = pool.borrowed[i];
    assert(replied(cx, rx, replies[i]));
    law_reply_is_resolution(cx, rx, replies[i]);
    law_reply_is_an_answer(cx, rx, replies[i]);
    match replies[i] {
        Reply::Waiting => {
            law_waiting_receiver_stays(pool.borrowed, replies, i);
            let k = asked.borrowed.index_of(rx);
            assert(next.borrowed[k] == rx) by {
                if taken is Some && next.borrowed.len() > asked.borrowed.len() {
                    assert(next.borrowed.drop_last()[k] == rx);
                }
            }
        },
        Reply::Returned(item) => {
            law_returned_items(replies, item);
            VecDeque::<T>::law_with_all(pool.ready, returned(replies));
            assert(VecDeque::<T>::holds(asked.ready, item));
            lemma_others_stay(asked.ready, item);
        },
        Reply::Lost => {},
    }
}

/// What stands behind the first item stays when that is taken out.
proof fn lemma_others_stay<T>(items: Seq<T>, item: T)
    ensures
        items.contains(item) && item != items[0] ==> items.drop_first().contains(item),
{
    if items.contains(item) && item != items[0] {
        let k = items.index_of(item);
        assert(items.drop_first()[k - 1] == item);
    }
}

/// What a caller is handed is what is said to be lent: an item for a loan, and nothing for none.
pub proof fn law_loan_is_what_is_handed_out<T>(
    pooled: PooledItem<T>,
)
    ensures
        loan_of(Some(pooled)) == Some(pooled.loan()),
        loan_of(None::<PooledItem<T>>) is None,
        loan_unless_lost(Ok(Some(pooled))) matches Ok(lent) && lent == Some(pooled.loan()),
        loan_unless_lost(Ok(None::<PooledItem<T>>)) matches Ok(lent) && lent is None,
        loan_unless_lost(Err::<Option<PooledItem<T>>, ItemLost>(ItemLost)) is Err,
{
}

/// What a pool is said to hold is what its two lists hold, and what is said of its capacity is said
/// of both of them.
proof fn law_pool_is_its_lists<T>(pool: Pool<T>, capacity: usize, after: Pool<T>)
    ensures
        pool@.ready == pool.ready@,
        pool@.borrowed == pool.borrowed@,
        pool.made_with_capacity(capacity) ==> call_ensures(VecDeque::<T>::with_capacity, (capacity,), pool.ready) && call_ensures(
            Vec::<Receiver<T>>::with_capacity,
            (capacity,),
            pool.borrowed,
        ),
        pool.shrinks_to(after) ==> call_ensures(shrink_deque::<T>, (pool.ready,), after.ready) && call_ensures(
            shrink_vec::<Receiver<T>>,
            (pool.borrowed,),
            after.borrowed,
        ),
{
}

/// The loan of a borrowed item is the one that is sent back when the item is dropped.
proof fn law_borrowed_item_is_its_loan<T>(pooled: PooledItem<T>)
    ensures
        pooled.lease@ is Some ==> pooled.lease@ == Some(pooled.loan()),
{
}

/// Wraps a loan, if there is one, for the borrower.
fn borrow<T>(lent: Option<Loan<T>>) -> (borrowed: Option<PooledItem<T>>)
    ensures
        loan_of(borrowed) == lent,
{
    match lent {
        Some(loan) => Some(PooledItem::new(loan)),
        None => None,
    }
}

impl<T> Pool<T> {
    /// Whether the ready and the borrowed list are as made with room for `capacity` items.
    pub closed spec fn made_with_capacity(self, capacity: usize) -> bool {
        &&& call_ensures(VecDeque::<T>::with_capacity, (capacity,), self.ready)
        &&& call_ensures(Vec::<Receiver<T>>::with_capacity, (capacity,), self.borrowed)
    }

    /// Whether the lists of `after` are what shrinking the ready and the borrowed list came to.
    pub closed spec fn shrinks_to(self, after: Self) -> bool {
        &&& call_ensures(shrink_deque::<T>, (self.ready,), after.ready)
        &&& call_ensures(shrink_vec::<Receiver<T>>, (self.borrowed,), after.borrowed)
    }

    /// Creates an empty pool.
    pub fn new() -> (pool: Self)
        ensures
            pool@.valid(),
            pool@.ready == Seq::<T>::empty(),
            pool@.borrowed == Seq::<Receiver<T>>::empty(),
    {
        Pool { ready: VecDeque::new(), borrowed: Vec::new() }
    }

    /// Creates an empty pool with the given capacity for both the ready and the borrowed list. The
    /// lists themselves refuse a capacity of more than `isize::MAX` bytes.
    pub fn with_capacity(capacity: usize) -> (pool: Self)
        ensures
            pool@.valid(),
            pool@.ready == Seq::<T>::empty(),
            pool@.borrowed == Seq::<Receiver<T>>::empty(),
            pool.made_with_capacity(capacity),
    {
        Pool { ready: VecDeque::with_capacity(capacity), borrowed: Vec::with_capacity(capacity) }
    }

    /// Returns the number of all items, whether ready or borrowed.
    pub fn len(&self) -> (len: usize)
        requires
            self@.count() <= usize::MAX,
        ensures
            len == self@.count(),
            len == self@.ready.len() + self@.borrowed.len(),
    {
        self.ready.len() + self.borrowed.len()
    }

    /// Returns `true` if the pool contains no items.
    pub fn is_empty(&self) -> (empty: bool)
        ensures
            empty <==> self@.count() == 0,
            empty <==> self@.ready.len() == 0 && self@.borrowed.len() == 0,
    {
        self.ready.len() == 0 && self.borrowed.len() == 0
    }

    /// Shrinks the capacity of both the ready and the borrowed list as much as possible.
    pub fn shrink_to_fit(&mut self)
        ensures
            old(self)@.valid() ==> final(self)@.valid(),
            final(self)@ == old(self)@,
            old(self).shrinks_to(*final(self)),
    {
        let mut ready: VecDeque<T> = VecDeque::new();
        std::mem::swap(&mut ready, &mut self.ready);
        self.ready = shrink_deque(ready);
        let mut borrowed: Vec<Receiver<T>> = Vec::new();
        std::mem::swap(&mut borrowed, &mut self.borrowed);
        self.borrowed = shrink_vec(borrowed);
    }

    /// Puts an item into the pool.
    pub fn put(&mut self, item: T)
        ensures
            old(self)@.valid() ==> final(self)@.valid(),
            final(self)@ == old(self)@.with(item),
            final(self)@.ready == old(self)@.ready.push(item),
            final(self)@.borrowed == old(self)@.borrowed,
            final(self)@.count() == old(self)@.count() + 1,
    {
        self.ready.push(item);
        proof {
            law_put_count(old(self)@, item);
        }
    }

    /// Tries to get an item from the pool. Returns `None` if there is no item immediately
    /// available.
    ///
    /// If a sender is dropped before its item is returned to the pool, the item is lost, and this
    /// is reflected in the pool's length.
    pub fn try_get(&mut self) -> (lent: Option<PooledItem<T>>)
        ensures
            old(self)@.valid() ==> final(self)@.valid(),
            old(self)@.tries_to_lend(loan_of(lent), final(self)@),
            old(self)@.ready.len() > 0 ==> (lent matches Some(pooled) && pooled.loan().message
                == old(self)@.ready[0]),
            old(self)@.borrowed.len() == 0 ==> old(self)@.lends(loan_of(lent), final(self)@),
            final(self)@.count() <= old(self)@.count(),
            old(self)@.valid() && (forall|i: int|
                0 <= i < old(self)@.borrowed.len() ==> (#[trigger] old(self)@.borrowed[i])@ is Ok)
                ==> final(self)@.count() == old(self)@.count(),
            exists|replies: Seq<Reply<T>>|
                {
                    let asked = #[trigger] old(self)@.after(replies);
                    &&& replies.len() == old(self)@.borrowed.len()
                    &&& forall|i: int|
                        0 <= i < replies.len() ==> {
                            &&& match #[trigger] replies[i] {
                                Reply::Returned(item) => asked.ready.contains(item),
                                Reply::Waiting => asked.borrowed.contains(old(self)@.borrowed[i]),
                                Reply::Lost => true,
                            }
                            &&& exists|handle: &mut Receiver<T>|
                                *handle == old(self)@.borrowed[i] && #[trigger] call_ensures(
                                    try_recv::<T>,
                                    (handle,),
                                    replies[i],
                                )
                        }
                    &&& asked.lends(loan_of(lent), final(self)@)
                },
            lent is None ==> final(self)@.ready.len() == 0 && (forall|k: int|
                    0 <= k < final(self)@.borrowed.len() ==> {
                        &&& old(self)@.borrowed.contains(#[trigger] final(self)@.borrowed[k])
                        &&& exists|handle: &mut Receiver<T>|
                            *handle == final(self)@.borrowed[k] && #[trigger] call_ensures(
                                try_recv::<T>,
                                (handle,),
                                Reply::Waiting,
                            )
                    }),
    {
        try_recv_from_borrowed(&mut self.ready, &mut self.borrowed);
        let lent = borrow(lend(&mut self.ready, &mut self.borrowed));
        proof {
            law_tried_lend_is_answered(old(self)@, loan_of(lent), self@);
            if lent is None {
                assert forall|k: int| 0 <= k < self@.borrowed.len() implies {
                        &&& old(self)@.borrowed.contains(#[trigger] self@.borrowed[k])
                        &&& exists|handle: &mut Receiver<T>|
                            *handle == self@.borrowed[k] && #[trigger] call_ensures(
                                try_recv::<T>,
                                (handle,),
                                Reply::Waiting,
                            )
                } by {
                    law_none_lent_in_vain(old(self)@, self@, k);
                }
            }
            if old(self)@.borrowed.len() == 0 {
                lemma_nothing_out(old(self)@);
            }
            law_tried_lend_count(old(self)@, loan_of(lent), self@);
        }
        lent
    }

    /// Makes one attempt to get an item from the pool. Where it yields no item, whoever waits for
    /// one makes the next attempt after a while.
    ///
    /// It fails if a sender was dropped before its item was returned to the pool, which should
    /// never happen.
    pub fn get_or_lost(&mut self) -> (outcome: Result<Option<PooledItem<T>>, ItemLost>)
        ensures
            old(self)@.valid() ==> final(self)@.valid(),
            old(self)@.lends_unless_lost(None, loan_unless_lost(outcome), final(self)@),
            old(self)@.ready.len() > 0 ==> (outcome matches Ok(lent) ==> lent matches Some(pooled)
                && pooled.loan().message == old(self)@.ready[0]),
            old(self)@.borrowed.len() == 0 ==> (outcome matches Ok(lent) && old(self)@.lends(
                loan_of(lent),
                final(self)@,
            )),
            final(self)@.count() == old(self)@.count(),
            old(self)@.valid() && (forall|i: int|
                0 <= i < old(self)@.borrowed.len() ==> (#[trigger] old(self)@.borrowed[i])@ is Ok)
                ==> outcome is Ok,
            exists|replies: Seq<Reply<T>>|
                {
                    let asked = #[trigger] old(self)@.after(replies);
                    &&& replies.len() <= old(self)@.borrowed.len()
                    &&& forall|i: int|
                        0 <= i < replies.len() ==> {
                            &&& match #[trigger] replies[i] {
                                Reply::Returned(item) => asked.ready.contains(item),
                                Reply::Waiting => asked.borrowed.contains(old(self)@.borrowed[i]),
                                Reply::Lost => false,
                            }
                            &&& exists|handle: &mut Receiver<T>|
                                *handle == old(self)@.borrowed[i] && #[trigger] call_ensures(
                                    try_recv::<T>,
                                    (handle,),
                                    replies[i],
                                )
                        }
                    &&& match loan_unless_lost(outcome) {
                        Ok(lent) => replies.len() == old(self)@.borrowed.len() && asked.lends(
                            lent,
                            final(self)@,
                        ),
                        Err(_) => {
                            &&& replies.len() < old(self)@.borrowed.len()
                            &&& final(self)@ == asked
                            &&& exists|handle: &mut Receiver<T>|
                                *handle == old(self)@.borrowed[replies.len() as int] && #[trigger] call_ensures(
                                    try_recv::<T>,
                                    (handle,),
                                    Reply::Lost,
                                )
                        },
                    }
                },
            outcome matches Ok(None) ==> final(self)@.ready.len() == 0 && (forall|k: int|
                    0 <= k < final(self)@.borrowed.len() ==> {
                        &&& old(self)@.borrowed.contains(#[trigger] final(self)@.borrowed[k])
                        &&& exists|handle: &mut Receiver<T>|
                            *handle == final(self)@.borrowed[k] && #[trigger] call_ensures(
                                try_recv::<T>,
                                (handle,),
                                Reply::Waiting,
                            )
                    }),
    {
        let outcome = match try_recv_from_borrowed_or_lost(&mut self.ready, &mut self.borrowed) {
            Ok(_) => Ok(borrow(lend(&mut self.ready, &mut self.borrowed))),
            Err(loss) => Err(loss),
        };
        proof {
            law_lend_is_answered(old(self)@, None, loan_unless_lost(outcome), self@);
            if outcome matches Ok(None) {
                assert forall|k: int| 0 <= k < self@.borrowed.len() implies {
                        &&& old(self)@.borrowed.contains(#[trigger] self@.borrowed[k])
                        &&& exists|handle: &mut Receiver<T>|
                            *handle == self@.borrowed[k] && #[trigger] call_ensures(
                                try_recv::<T>,
                                (handle,),
                                Reply::Waiting,
                            )
                } by {
                    law_none_lent_while_all_wait(old(self)@, None, self@, k);
                }
            }
            if old(self)@.borrowed.len() == 0 {
                lemma_nothing_out(old(self)@);
            }
            if old(self)@.valid() && forall|i: int|
                0 <= i < old(self)@.borrowed.len() ==> (#[trigger] old(self)@.borrowed[i])@ is Ok {
                law_lend_reports_true_losses(old(self)@, None, loan_unless_lost(outcome), self@);
            }
            law_lend_count(old(self)@, None, loan_unless_lost(outcome), self@);
        }
        outcome
    }

    /// As [`Pool::get_or_lost`], and has the task of `cx` woken when an item comes back that is
    /// still out.
    pub fn poll_get(&mut self, cx: &mut Context<'_>) -> (outcome: Result<
        Option<PooledItem<T>>,
        ItemLost,
    >)
        ensures
            old(self)@.valid() ==> final(self)@.valid(),
            *final(cx) == *old(cx),
            old(self)@.lends_unless_lost(Some(*old(cx)), loan_unless_lost(outcome), final(self)@),
            old(self)@.ready.len() > 0 ==> (outcome matches Ok(lent) ==> lent matches Some(pooled)
                && pooled.loan().message == old(self)@.ready[0]),
            old(self)@.borrowed.len() == 0 ==> (outcome matches Ok(lent) && old(self)@.lends(
                loan_of(lent),
                final(self)@,
            )),
            final(self)@.count() == old(self)@.count(),
            old(self)@.valid() && (forall|i: int|
                0 <= i < old(self)@.borrowed.len() ==> (#[trigger] old(self)@.borrowed[i])@ is Ok)
                ==> outcome is Ok,
            exists|replies: Seq<Reply<T>>|
                {
                    let asked = #[trigger] old(self)@.after(replies);
                    &&& replies.len() <= old(self)@.borrowed.len()
                    &&& forall|i: int|
                        0 <= i < replies.len() ==> {
                            &&& match #[trigger] replies[i] {
                                Reply::Returned(item) => asked.ready.contains(item),
                                Reply::Waiting => asked.borrowed.contains(old(self)@.borrowed[i]),
                                Reply::Lost => false,
                            }
                            &&& exists|handle: &mut Receiver<T>, task: &mut Context<'_>|
                                *handle == old(self)@.borrowed[i] && *task == *old(cx)
                                    && #[trigger] call_ensures(
                                    poll_recv::<T>,
                                    (handle, task),
                                    replies[i],
                                )
                        }
                    &&& match loan_unless_lost(outcome) {
                        Ok(lent) => replies.len() == old(self)@.borrowed.len() && asked.lends(
                            lent,
                            final(self)@,
                        ),
                        Err(_) => {
                            &&& replies.len() < old(self)@.borrowed.len()
                            &&& final(self)@ == asked
                            &&& exists|handle: &mut Receiver<T>, task: &mut Context<'_>|
                                *handle == old(self)@.borrowed[replies.len() as int] && *task == *old(cx)
                                    && #[trigger] call_ensures(
                                    poll_recv::<T>,
                                    (handle, task),
                                    Reply::Lost,
                                )
                        },
                    }
                },
            outcome matches Ok(None) ==> final(self)@.ready.len() == 0 && (forall|k: int|
                    0 <= k < final(self)@.borrowed.len() ==> {
                        &&& old(self)@.borrowed.contains(#[trigger] final(self)@.borrowed[k])
                        &&& exists|handle: &mut Receiver<T>, task: &mut Context<'_>|
                            *handle == final(self)@.borrowed[k] && *task == *old(cx)
                                && #[trigger] call_ensures(
                                poll_recv::<T>,
                                (handle, task),
                                Reply::Waiting,
                            )
                    }),
    {
        let outcome = match poll_all_borrowed_and_push_back_ready(
            &mut self.ready,
            &mut self.borrowed,
            cx,
        ) {
            Ok(_) => Ok(borrow(lend(&mut self.ready, &mut self.borrowed))),
            Err(loss) => Err(loss),
        };
        proof {
            law_lend_is_answered(old(self)@, Some(*old(cx)), loan_unless_lost(outcome), self@);
            if outcome matches Ok(None) {
                assert forall|k: int| 0 <= k < self@.borrowed.len() implies {
                        &&& old(self)@.borrowed.contains(#[trigger] self@.borrowed[k])
                        &&& exists|handle: &mut Receiver<T>, task: &mut Context<'_>|
                            *handle == self@.borrowed[k] && *task == *old(cx)
                                && #[trigger] call_ensures(
                                poll_recv::<T>,
                                (handle, task),
                                Reply::Waiting,
                            )
                } by {
                    law_none_lent_while_all_wait(old(self)@, Some(*old(cx)), self@, k);
                }
            }
            if old(self)@.borrowed.len() == 0 {
                lemma_nothing_out(old(self)@);
            }
            if old(self)@.valid() && forall|i: int|
                0 <= i < old(self)@.borrowed.len() ==> (#[trigger] old(self)@.borrowed[i])@ is Ok {
                law_lend_reports_true_losses(
                    old(self)@,
                    Some(*old(cx)),
                    loan_unless_lost(outcome),
                    self@,
                );
            }
            law_lend_count(old(self)@, Some(*old(cx)), loan_unless_lost(outcome), self@);
        }
        outcome
    }

    /// Gets an item from the pool. The item is had by polling what this returns.
    pub fn get(&mut self) -> (request: Get<'_, T>)
        ensures
            *request.pool == *old(self),
            *final(request.pool) == *final(self),
    {
        Get { pool: self }
    }

    /// Tries to pop an item from the pool. Returns `None` if there is no item immediately
    /// available.
    ///
    /// If a sender is dropped before its item is returned to the pool, the item is lost, and this
    /// is reflected in the pool's length.
    pub fn try_pop(&mut self) -> (taken: Option<T>)
        ensures
            old(self)@.valid() ==> final(self)@.valid(),
            old(self)@.tries_to_pop(taken, final(self)@),
            old(self)@.ready.len() > 0 ==> taken == Some(old(self)@.ready[0]),
            old(self)@.borrowed.len() == 0 ==> old(self)@.pops(taken, final(self)@),
            taken is None ==> final(self)@.count() <= old(self)@.count(),
            taken is Some ==> final(self)@.count() < old(self)@.count(),
            old(self)@.valid() && (forall|i: int|
                0 <= i < old(self)@.borrowed.len() ==> (#[trigger] old(self)@.borrowed[i])@ is Ok)
                ==> final(self)@.count() == old(self)@.count() - (if taken is Some {
                1int
            } else {
                0int
            }),
            exists|replies: Seq<Reply<T>>|
                {
                    let asked = #[trigger] old(self)@.after(replies);
                    &&& replies.len() == old(self)@.borrowed.len()
                    &&& forall|i: int|
                        0 <= i < replies.len() ==> {
                            &&& match #[trigger] replies[i] {
                                Reply::Returned(item) => asked.ready.contains(item),
                                Reply::Waiting => asked.borrowed.contains(old(self)@.borrowed[i]),
                                Reply::Lost => true,
                            }
                            &&& exists|handle: &mut Receiver<T>|
                                *handle == old(self)@.borrowed[i] && #[trigger] call_ensures(
                                    try_recv::<T>,
                                    (handle,),
                                    replies[i],
                                )
                        }
                    &&& asked.pops(taken, final(self)@)
                },
            taken is None ==> final(self)@.ready.len() == 0 && (forall|k: int|
                    0 <= k < final(self)@.borrowed.len() ==> {
                        &&& old(self)@.borrowed.contains(#[trigger] final(self)@.borrowed[k])
                        &&& exists|handle: &mut Receiver<T>|
                            *handle == final(self)@.borrowed[k] && #[trigger] call_ensures(
                                try_recv::<T>,
                                (handle,),
                                Reply::Waiting,
                            )
                    }),
    {
        try_recv_from_borrowed(&mut self.ready, &mut self.borrowed);
        let taken = self.ready.pop_front();
        proof {
            law_tried_pop_is_answered(old(self)@, taken, self@);
            if taken is None {
                assert forall|k: int| 0 <= k < self@.borrowed.len() implies {
                        &&& old(self)@.borrowed.contains(#[trigger] self@.borrowed[k])
                        &&& exists|handle: &mut Receiver<T>|
                            *handle == self@.borrowed[k] && #[trigger] call_ensures(
                                try_recv::<T>,
                                (handle,),
                                Reply::Waiting,
                            )
                } by {
                    law_none_popped_in_vain(old(self)@, self@, k);
                }
            }
            if old(self)@.borrowed.len() == 0 {
                lemma_nothing_out(old(self)@);
            }
            law_tried_pop_count(old(self)@, taken, self@);
        }
        taken
    }

    /// Makes one attempt to pop an item from the pool. Where it yields no item, whoever waits for
    /// one makes the next attempt after a while.
    ///
    /// It fails if a sender was dropped before its item was returned to the pool, which should
    /// never happen.
    pub fn pop_or_lost(&mut self) -> (outcome: Result<Option<T>, ItemLost>)
        ensures
            old(self)@.valid() ==> final(self)@.valid(),
            old(self)@.pops_unless_lost(None, outcome, final(self)@),
            old(self)@.ready.len() > 0 ==> (outcome matches Ok(taken) ==> taken == Some(
                old(self)@.ready[0],
            )),
            old(self)@.borrowed.len() == 0 ==> (outcome matches Ok(taken) && old(self)@.pops(
                taken,
                final(self)@,
            )),
            final(self)@.count() == old(self)@.count() - (if outcome matches Ok(Some(_)) {
                1int
            } else {
                0int
            }),
            old(self)@.valid() && (forall|i: int|
                0 <= i < old(self)@.borrowed.len() ==> (#[trigger] old(self)@.borrowed[i])@ is Ok)
                ==> outcome is Ok,
            exists|replies: Seq<Reply<T>>|
                {
                    let asked = #[trigger] old(self)@.after(replies);
                    &&& replies.len() <= old(self)@.borrowed.len()
                    &&& forall|i: int|
                        0 <= i < replies.len() ==> {
                            &&& match #[trigger] replies[i] {
                                Reply::Returned(item) => asked.ready.contains(item),
                                Reply::Waiting => asked.borrowed.contains(old(self)@.borrowed[i]),
                                Reply::Lost => false,
                            }
                            &&& exists|handle: &mut Receiver<T>|
                                *handle == old(self)@.borrowed[i] && #[trigger] call_ensures(
                                    try_recv::<T>,
                                    (handle,),
                                    replies[i],
                                )
                        }
                    &&& match outcome {
                        Ok(taken) => replies.len() == old(self)@.borrowed.len() && asked.pops(
                            taken,
                            final(self)@,
                        ),
                        Err(_) => {
                            &&& replies.len() < old(self)@.borrowed.len()
                            &&& final(self)@ == asked
                            &&& exists|handle: &mut Receiver<T>|
                                *handle == old(self)@.borrowed[replies.len() as int] && #[trigger] call_ensures(
                                    try_recv::<T>,
                                    (handle,),
                                    Reply::Lost,
                                )
                        },
                    }
                },
            outcome matches Ok(None) ==> final(self)@.ready.len() == 0 && (forall|k: int|
                    0 <= k < final(self)@.borrowed.len() ==> {
                        &&& old(self)@.borrowed.contains(#[trigger] final(self)@.borrowed[k])
                        &&& exists|handle: &mut Receiver<T>|
                            *handle == final(self)@.borrowed[k] && #[trigger] call_ensures(
                                try_recv::<T>,
                                (handle,),
                                Reply::Waiting,
                            )
                    }),
    {
        let outcome = match try_recv_from_borrowed_or_lost(&mut self.ready, &mut self.borrowed) {
            Ok(_) => Ok(self.ready.pop_front()),
            Err(loss) => Err(loss),
        };
        proof {
            law_pop_is_answered(old(self)@, None, outcome, self@);
            if outcome matches Ok(None) {
                assert forall|k: int| 0 <= k < self@.borrowed.len() implies {
                        &&& old(self)@.borrowed.contains(#[trigger] self@.borrowed[k])
                        &&& exists|handle: &mut Receiver<T>|
                            *handle == self@.borrowed[k] && #[trigger] call_ensures(
                                try_recv::<T>,
                                (handle,),
                                Reply::Waiting,
                            )
                } by {
                    law_none_popped_while_all_wait(old(self)@, None, self@, k);
                }
            }
            if old(self)@.borrowed.len() == 0 {
                lemma_nothing_out(old(self)@);
            }
            if old(self)@.valid() && forall|i: int|
                0 <= i < old(self)@.borrowed.len() ==> (#[trigger] old(self)@.borrowed[i])@ is Ok {
                law_pop_reports_true_losses(old(self)@, None, outcome, self@);
            }
            law_pop_count(old(self)@, None, outcome, self@);
        }
        outcome
    }

    /// As [`Pool::pop_or_lost`], and has the task of `cx` woken when an item comes back that is
    /// still out.
    pub fn poll_pop(&mut self, cx: &mut Context<'_>) -> (outcome: Result<Option<T>, ItemLost>)
        ensures
            old(self)@.valid() ==> final(self)@.valid(),
            *final(cx) == *old(cx),
            old(self)@.pops_unless_lost(Some(*old(cx)), outcome, final(self)@),
            old(self)@.ready.len() > 0 ==> (outcome matches Ok(taken) ==> taken == Some(
                old(self)@.ready[0],
            )),
            old(self)@.borrowed.len() == 0 ==> (outcome matches Ok(taken) && old(self)@.pops(
                taken,
                final(self)@,
            )),
            final(self)@.count() == old(self)@.count() - (if outcome matches Ok(Some(_)) {
                1int
            } else {
                0int
            }),
            old(self)@.valid() && (forall|i: int|
                0 <= i < old(self)@.borrowed.len() ==> (#[trigger] old(self)@.borrowed[i])@ is Ok)
                ==> outcome is Ok,
            exists|replies: Seq<Reply<T>>|
                {
                    let asked = #[trigger] old(self)@.after(replies);
                    &&& replies.len() <= old(self)@.borrowed.len()
                    &&& forall|i: int|
                        0 <= i < replies.len() ==> {
                            &&& match #[trigger] replies[i] {
                                Reply::Returned(item) => asked.ready.contains(item),
                                Reply::Waiting => asked.borrowed.contains(old(self)@.borrowed[i]),
                                Reply::Lost => false,
                            }
                            &&& exists|handle: &mut Receiver<T>, task: &mut Context<'_>|
                                *handle == old(self)@.borrowed[i] && *task == *old(cx)
                                    && #[trigger] call_ensures(
                                    poll_recv::<T>,
                                    (handle, task),
                                    replies[i],
                                )
                        }
                    &&& match outcome {
                        Ok(taken) => replies.len() == old(self)@.borrowed.len() && asked.pops(
                            taken,
                            final(self)@,
                        ),
                        Err(_) => {
                            &&& replies.len() < old(self)@.borrowed.len()
                            &&& final(self)@ == asked
                            &&& exists|handle: &mut Receiver<T>, task: &mut Context<'_>|
                                *handle == old(self)@.borrowed[replies.len() as int] && *task == *old(cx)
                                    && #[trigger] call_ensures(
                                    poll_recv::<T>,
                                    (handle, task),
                                    Reply::Lost,
                                )
                        },
                    }
                },
            outcome matches Ok(None) ==> final(self)@.ready.len() == 0 && (forall|k: int|
                    0 <= k < final(self)@.borrowed.len() ==> {
                        &&& old(self)@.borrowed.contains(#[trigger] final(self)@.borrowed[k])
                        &&& exists|handle: &mut Receiver<T>, task: &mut Context<'_>|
                            *handle == final(self)@.borrowed[k] && *task == *old(cx)
                                && #[trigger] call_ensures(
                                poll_recv::<T>,
                                (handle, task),
                                Reply::Waiting,
                            )
                    }),
    {
        let outcome = match poll_all_borrowed_and_push_back_ready(
            &mut self.ready,
            &mut self.borrowed,
            cx,
        ) {
            Ok(_) => Ok(self.ready.pop_front()),
            Err(loss) => Err(loss),
        };
        proof {
            law_pop_is_answered(old(self)@, Some(*old(cx)), outcome, self@);
            if outcome matches Ok(None) {
                assert forall|k: int| 0 <= k < self@.borrowed.len() implies {
                        &&& old(self)@.borrowed.contains(#[trigger] self@.borrowed[k])
                        &&& exists|handle: &mut Receiver<T>, task: &mut Context<'_>|
                            *handle == self@.borrowed[k] && *task == *old(cx)
                                && #[trigger] call_ensures(
                                poll_recv::<T>,
                                (handle, task),
                                Reply::Waiting,
                            )
                } by {
                    law_none_popped_while_all_wait(old(self)@, Some(*old(cx)), self@, k);
                }
            }
            if old(self)@.borrowed.len() == 0 {
                lemma_nothing_out(old(self)@);
            }
            if old(self)@.valid() && forall|i: int|
                0 <= i < old(self)@.borrowed.len() ==> (#[trigger] old(self)@.borrowed[i])@ is Ok {
                law_pop_reports_true_losses(old(self)@, Some(*old(cx)), outcome, self@);
            }
            law_pop_count(old(self)@, Some(*old(cx)), outcome, self@);
        }
        outcome
    }

    /// Pops an item from the pool. The item is had by polling what this returns.
    pub fn pop(&mut self) -> (request: Pop<'_, T>)
        ensures
            *request.pool == *old(self),
            *final(request.pool) == *final(self),
    {
        Pop { pool: self }
    }
}

/// A request for a [`PooledItem`] from a [`Pool`].
#[verifier::reject_recursive_types(T)]
pub struct Get<'a, T> {
    /// The pool that the item is asked of.
    pub pool: &'a mut Pool<T>,
}

impl<'a, T> Get<'a, T> {
    /// Asks for the item once more, as [`Pool::poll_get`].
    pub fn poll(&mut self, cx: &mut Context<'_>) -> (outcome: Result<
        Option<PooledItem<T>>,
        ItemLost,
    >)
        ensures
            (*old(self).pool)@.valid() ==> (*final(self).pool)@.valid(),
            (*old(self).pool)@.lends_unless_lost(
                Some(*old(cx)),
                loan_unless_lost(outcome),
                (*final(self).pool)@,
            ),
            (*final(self).pool)@.count() == (*old(self).pool)@.count(),
            *final(final(self).pool) == *final(old(self).pool),
            *final(cx) == *old(cx),
            outcome matches Ok(None) ==> (*final(self).pool)@.ready.len() == 0 && (forall|k: int|
                    0 <= k < (*final(self).pool)@.borrowed.len() ==> {
                        &&& (*old(self).pool)@.borrowed.contains(
                            #[trigger] (*final(self).pool)@.borrowed[k],
                        )
                        &&& exists|handle: &mut Receiver<T>, task: &mut Context<'_>|
                            *handle == (*final(self).pool)@.borrowed[k] && *task == *old(cx)
                                && #[trigger] call_ensures(
                                poll_recv::<T>,
                                (handle, task),
                                Reply::Waiting,
                            )
                    }),
    {
        self.pool.poll_get(cx)
    }
}

/// A request to remove an item from a [`Pool`].
#[verifier::reject_recursive_types(T)]
pub struct Pop<'a, T> {
    /// The pool that the item is asked of.
    pub pool: &'a mut Pool<T>,
}

impl<'a, T> Pop<'a, T> {
    /// Asks for the item once more, as [`Pool::poll_pop`].
    pub fn poll(&mut self, cx: &mut Context<'_>) -> (outcome: Result<Option<T>, ItemLost>)
        ensures
            (*old(self).pool)@.valid() ==> (*final(self).pool)@.valid(),
            (*old(self).pool)@.pops_unless_lost(Some(*old(cx)), outcome, (*final(self).pool)@),
            (*final(self).pool)@.count() == (*old(self).pool)@.count() - (if outcome matches Ok(
                Some(_),
            ) {
                1int
            } else {
                0int
            }),
            *final(final(self).pool) == *final(old(self).pool),
            *final(cx) == *old(cx),
            outcome matches Ok(None) ==> (*final(self).pool)@.ready.len() == 0 && (forall|k: int|
                    0 <= k < (*final(self).pool)@.borrowed.len() ==> {
                        &&& (*old(self).pool)@.borrowed.contains(
                            #[trigger] (*final(self).pool)@.borrowed[k],
                        )
                        &&& exists|handle: &mut Receiver<T>, task: &mut Context<'_>|
                            *handle == (*final(self).pool)@.borrowed[k] && *task == *old(cx)
                                && #[trigger] call_ensures(
                                poll_recv::<T>,
                                (handle, task),
                                Reply::Waiting,
                            )
                    }),
    {
        self.pool.poll_pop(cx)
    }
}

} // verus!
