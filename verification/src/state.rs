//! The states of a pool, and the steps between them.

use crate::channel::{
    all_made, answers, law_reply_is_an_answer, law_reply_is_resolution, law_sent_item_comes_back,
    made, paired, poll_recv, replied, try_recv, ItemLost, Reply,
};
use crate::internal::PoolStore;
use crate::lease::Loan;
use crate::round::{
    all_asked, asked_until_lost, kept, law_each_reply_has_its_effect, law_kept_were_told_to_wait,
    law_quiet_round, law_replies_add_up, law_returned_items, law_waiting_receiver_stays,
    lemma_kept_are_made, lemma_none_lost, lemma_none_lost_if_all_return, lost, returned, waiting,
};
use futures_channel::oneshot::Receiver;
use std::task::Context;
use vstd::future::FutureAdditionalSpecFns;
use vstd::prelude::*;

verus! {

/// What a pool holds that keeps its ready items in an `S`.
#[verifier::ext_equal]
#[verifier::reject_recursive_types(S)]
pub struct PoolState<S: PoolStore> {
    /// The items that are ready.
    pub ready: S::V,
    /// The receivers of the items that are out, the longest out first.
    pub borrowed: Seq<Receiver<S::Item>>,
}

impl<S: PoolStore> PoolState<S> {
    /// The state of a pool that is made up of `ready` and `borrowed`.
    pub open spec fn of(ready: S, borrowed: Vec<Receiver<S::Item>>) -> PoolState<S> {
        PoolState { ready: ready@, borrowed: borrowed@ }
    }

    /// Whether the receivers are as `channel` made them. They are so in every pool.
    pub open spec fn valid(self) -> bool {
        all_made(self.borrowed)
    }

    /// The number of all items, ready or borrowed.
    pub open spec fn count(self) -> nat {
        S::size(self.ready) + self.borrowed.len()
    }

    /// The pool with `item` put into it.
    pub open spec fn with(self, item: S::Item) -> PoolState<S> {
        PoolState { ready: S::with_all(self.ready, seq![item]), borrowed: self.borrowed }
    }

    /// The pool after its receivers, the first `replies.len()` of them, answered `replies`.
    pub open spec fn after(self, replies: Seq<Reply<S::Item>>) -> PoolState<S> {
        PoolState {
            ready: S::with_all(self.ready, returned(replies)),
            borrowed: kept(self.borrowed, replies),
        }
    }

    /// Whether taking out `taken` leads from this pool to `next`.
    pub open spec fn pops(self, taken: Option<S::Item>, next: PoolState<S>) -> bool {
        &&& S::takes(self.ready, taken, next.ready)
        &&& next.borrowed == self.borrowed
    }

    /// Whether lending out `lent` leads from this pool to `next`: as [`PoolState::pops`], and the
    /// receiver that stands for the loan is made with the sender that the loan goes back through.
    pub open spec fn lends(self, lent: Option<Loan<S::Item>>, next: PoolState<S>) -> bool {
        match lent {
            Some(loan) => {
                &&& S::takes(self.ready, Some(loan.message), next.ready)
                &&& next.borrowed.len() == self.borrowed.len() + 1
                &&& next.borrowed.drop_last() == self.borrowed
                &&& paired(loan.sender, next.borrowed.last())
            },
            None => S::takes(self.ready, None, next.ready) && next.borrowed == self.borrowed,
        }
    }

    /// Whether trying to lend can lead from this pool to `next`: all receivers are asked, and of
    /// what is ready then `lent` is lent out.
    pub open spec fn tries_to_lend(
        self,
        lent: Option<Loan<S::Item>>,
        next: PoolState<S>,
    ) -> bool {
        exists|replies: Seq<Reply<S::Item>>|
            all_asked(None, self.borrowed, replies) && (#[trigger] self.after(replies)).lends(
                lent,
                next,
            )
    }

    /// As [`PoolState::tries_to_lend`], but the item leaves the pool for good.
    pub open spec fn tries_to_pop(
        self,
        taken: Option<S::Item>,
        next: PoolState<S>,
    ) -> bool {
        exists|replies: Seq<Reply<S::Item>>|
            all_asked(None, self.borrowed, replies) && (#[trigger] self.after(replies)).pops(
                taken,
                next,
            )
    }

    /// Whether lending, in the task of `cx` if there is one, can lead from this pool to `next`:
    /// the receivers are asked up to the first that reports a loss. If there is one, that is
    /// the outcome; if not, of what is ready then an item is lent out.
    pub open spec fn lends_unless_lost<'c>(
        self,
        cx: Option<Context<'c>>,
        outcome: Result<Option<Loan<S::Item>>, ItemLost>,
        next: PoolState<S>,
    ) -> bool {
        exists|replies: Seq<Reply<S::Item>>|
            {
                let asked = #[trigger] self.after(replies);
                &&& asked_until_lost(cx, self.borrowed, replies, outcome)
                &&& match outcome {
                    Ok(lent) => asked.lends(lent, next),
                    Err(_) => next == asked,
                }
            }
    }

    /// As [`PoolState::lends_unless_lost`], but the item leaves the pool for good.
    pub open spec fn pops_unless_lost<'c>(
        self,
        cx: Option<Context<'c>>,
        outcome: Result<Option<S::Item>, ItemLost>,
        next: PoolState<S>,
    ) -> bool {
        exists|replies: Seq<Reply<S::Item>>|
            {
                let asked = #[trigger] self.after(replies);
                &&& asked_until_lost(cx, self.borrowed, replies, outcome)
                &&& match outcome {
                    Ok(taken) => asked.pops(taken, next),
                    Err(_) => next == asked,
                }
            }
    }
}

/// What the parts of a state mean: it is made up of the contents of the store and of the list, it
/// is valid if every receiver came from `channel`, and its size counts what is ready and what is
/// out.
pub proof fn law_state_is_its_lists<S: PoolStore>(
    ready: S,
    borrowed: Vec<Receiver<S::Item>>,
    pool: PoolState<S>,
    item: S::Item,
)
    ensures
        PoolState::of(ready, borrowed).ready == ready@,
        PoolState::of(ready, borrowed).borrowed == borrowed@,
        pool.count() == S::size(pool.ready) + pool.borrowed.len(),
        pool.with(item).ready == S::with_all(pool.ready, seq![item]),
        pool.with(item).borrowed == pool.borrowed,
        pool.valid() <==> forall|i: int|
            0 <= i < pool.borrowed.len() ==> made(#[trigger] pool.borrowed[i]),
{
}

/// Lending keeps the pool valid.
pub proof fn law_lend_keeps_valid<S: PoolStore>(
    pool: PoolState<S>,
    lent: Option<Loan<S::Item>>,
    next: PoolState<S>,
)
    requires
        pool.valid(),
        pool.lends(lent, next),
    ensures
        next.valid(),
{
    if let Some(loan) = lent {
        assert(paired(loan.sender, next.borrowed.last()));
        assert forall|i: int| 0 <= i < next.borrowed.len() implies made(
            #[trigger] next.borrowed[i],
        ) by {
            if i < pool.borrowed.len() {
                assert(next.borrowed.drop_last()[i] == pool.borrowed[i]);
            }
        }
    }
}

/// A round of asking the receivers keeps the pool valid.
pub proof fn law_round_keeps_valid<S: PoolStore>(pool: PoolState<S>, replies: Seq<Reply<S::Item>>)
    requires
        pool.valid(),
        replies.len() <= pool.borrowed.len(),
    ensures
        pool.after(replies).valid(),
{
    lemma_kept_are_made(pool.borrowed, replies);
}

/// Putting an item in makes the pool larger by one.
pub proof fn law_put_count<S: PoolStore>(pool: PoolState<S>, item: S::Item)
    ensures
        pool.with(item).count() == pool.count() + 1,
        S::holds(pool.with(item).ready, item),
{
    S::law_with_all(pool.ready, seq![item]);
    assert(seq![item][0] == item);
}

/// A round of asking the receivers loses the items that are reported lost, and no others.
pub proof fn law_round_count<S: PoolStore>(pool: PoolState<S>, replies: Seq<Reply<S::Item>>)
    requires
        replies.len() <= pool.borrowed.len(),
    ensures
        pool.after(replies).count() + lost(replies) == pool.count(),
{
    law_replies_add_up(pool.borrowed, replies);
    S::law_with_all(pool.ready, returned(replies));
}

/// Lending after a round of asking leaves the size of the pool as it was, but for the items that
/// were reported lost.
pub proof fn law_lend_after_round_count<S: PoolStore>(
    pool: PoolState<S>,
    replies: Seq<Reply<S::Item>>,
    lent: Option<Loan<S::Item>>,
    next: PoolState<S>,
)
    requires
        replies.len() <= pool.borrowed.len(),
        pool.after(replies).lends(lent, next),
    ensures
        next.count() + lost(replies) == pool.count(),
{
    law_round_count(pool, replies);
    let taken = match lent {
        Some(loan) => Some(loan.message),
        None => None,
    };
    S::law_takes(pool.after(replies).ready, taken, next.ready);
}

/// Popping after a round of asking makes the pool smaller by the item that is popped and those that
/// were reported lost.
pub proof fn law_pop_after_round_count<S: PoolStore>(
    pool: PoolState<S>,
    replies: Seq<Reply<S::Item>>,
    taken: Option<S::Item>,
    next: PoolState<S>,
)
    requires
        replies.len() <= pool.borrowed.len(),
        pool.after(replies).pops(taken, next),
    ensures
        next.count() + lost(replies) == pool.count() - (if taken is Some { 1int } else { 0int }),
{
    law_round_count(pool, replies);
    S::law_takes(pool.after(replies).ready, taken, next.ready);
}

/// Trying to lend never makes the pool larger, and leaves its size as it was if every item that is
/// out comes back one day.
pub proof fn law_tried_lend_count<S: PoolStore>(
    pool: PoolState<S>,
    lent: Option<Loan<S::Item>>,
    next: PoolState<S>,
)
    requires
        pool.tries_to_lend(lent, next),
    ensures
        next.count() <= pool.count(),
        pool.valid() && (forall|i: int|
            0 <= i < pool.borrowed.len() ==> (#[trigger] pool.borrowed[i])@ is Ok)
            ==> next.count() == pool.count(),
{
    let replies = choose|replies: Seq<Reply<S::Item>>|
        all_asked(None, pool.borrowed, replies) && (#[trigger] pool.after(replies)).lends(lent, next);
    law_lend_after_round_count(pool, replies, lent, next);
    if pool.valid() && forall|i: int|
        0 <= i < pool.borrowed.len() ==> (#[trigger] pool.borrowed[i])@ is Ok {
        lemma_none_lost_if_all_return(None, pool.borrowed, replies);
    }
}

/// Trying to pop makes the pool smaller by the item that is popped, and by no more if every item
/// that is out comes back one day.
pub proof fn law_tried_pop_count<S: PoolStore>(
    pool: PoolState<S>,
    taken: Option<S::Item>,
    next: PoolState<S>,
)
    requires
        pool.tries_to_pop(taken, next),
    ensures
        next.count() <= pool.count() - (if taken is Some { 1int } else { 0int }),
        pool.valid() && (forall|i: int|
            0 <= i < pool.borrowed.len() ==> (#[trigger] pool.borrowed[i])@ is Ok)
            ==> next.count() == pool.count() - (if taken is Some { 1int } else { 0int }),
{
    let replies = choose|replies: Seq<Reply<S::Item>>|
        all_asked(None, pool.borrowed, replies) && (#[trigger] pool.after(replies)).pops(taken, next);
    law_pop_after_round_count(pool, replies, taken, next);
    if pool.valid() && forall|i: int|
        0 <= i < pool.borrowed.len() ==> (#[trigger] pool.borrowed[i])@ is Ok {
        lemma_none_lost_if_all_return(None, pool.borrowed, replies);
    }
}

/// Borrowing an item leaves the size of the pool as it was.
pub proof fn law_lend_count<'c, S: PoolStore>(
    pool: PoolState<S>,
    cx: Option<Context<'c>>,
    outcome: Result<Option<Loan<S::Item>>, ItemLost>,
    next: PoolState<S>,
)
    requires
        pool.lends_unless_lost(cx, outcome, next),
    ensures
        next.count() == pool.count(),
{
    let replies = choose|replies: Seq<Reply<S::Item>>|
        {
            let asked = #[trigger] pool.after(replies);
            &&& asked_until_lost(cx, pool.borrowed, replies, outcome)
            &&& match outcome {
                Ok(lent) => asked.lends(lent, next),
                Err(_) => next == asked,
            }
        };
    lemma_none_lost(replies);
    match outcome {
        Ok(lent) => law_lend_after_round_count(pool, replies, lent, next),
        Err(_) => law_round_count(pool, replies),
    }
}

/// Popping an item makes the pool smaller by one; where none is popped, its size stays as it was.
pub proof fn law_pop_count<'c, S: PoolStore>(
    pool: PoolState<S>,
    cx: Option<Context<'c>>,
    outcome: Result<Option<S::Item>, ItemLost>,
    next: PoolState<S>,
)
    requires
        pool.pops_unless_lost(cx, outcome, next),
    ensures
        next.count() == pool.count() - (if outcome matches Ok(Some(_)) { 1int } else { 0int }),
{
    let replies = choose|replies: Seq<Reply<S::Item>>|
        {
            let asked = #[trigger] pool.after(replies);
            &&& asked_until_lost(cx, pool.borrowed, replies, outcome)
            &&& match outcome {
                Ok(taken) => asked.pops(taken, next),
                Err(_) => next == asked,
            }
        };
    lemma_none_lost(replies);
    match outcome {
        Ok(taken) => law_pop_after_round_count(pool, replies, taken, next),
        Err(_) => law_round_count(pool, replies),
    }
}

/// A borrowed item that has been sent back is never lost: whenever its receiver is asked, the item
/// is ready then, or it is on its way and its receiver is kept.
pub proof fn law_sent_item_is_not_lost<'c, S: PoolStore>(
    pool: PoolState<S>,
    cx: Option<Context<'c>>,
    replies: Seq<Reply<S::Item>>,
    i: int,
    item: S::Item,
)
    requires
        pool.valid(),
        0 <= i < replies.len() <= pool.borrowed.len(),
        replied(cx, pool.borrowed[i], replies[i]),
        answers(pool.borrowed[i]@, Reply::Returned(item)),
    ensures
        match replies[i] {
            Reply::Returned(back) => back == item && S::holds(pool.after(replies).ready, item),
            Reply::Waiting => pool.after(replies).borrowed.contains(pool.borrowed[i]),
            Reply::Lost => false,
        },
{
    law_sent_item_comes_back(cx, pool.borrowed[i], item, replies[i]);
    if replies[i] is Waiting {
        law_waiting_receiver_stays(pool.borrowed, replies, i);
    } else {
        law_returned_items(replies, item);
        S::law_with_all(pool.ready, returned(replies));
    }
}

/// A borrowed item comes back to the pool that lent it: once `item` has been sent back through the
/// loan's own sender, a round that finds it arrived has it ready, whatever became of the other
/// items. Until then the receiver that stands for the loan is kept.
pub proof fn law_loan_comes_back<'c, S: PoolStore>(
    pool: PoolState<S>,
    loan: Loan<S::Item>,
    next: PoolState<S>,
    item: S::Item,
    cx: Option<Context<'c>>,
    replies: Seq<Reply<S::Item>>,
)
    requires
        pool.valid(),
        pool.lends(Some(loan), next),
        forall|rx: Receiver<S::Item>| #[trigger]
            paired(loan.sender, rx) ==> answers(rx@, Reply::Returned(item)),
        replies.len() == next.borrowed.len(),
        replied(cx, next.borrowed.last(), replies.last()),
    ensures
        replies.last() !is Waiting ==> replies.last() == Reply::Returned(item) && S::holds(
            next.after(replies).ready,
            item,
        ),
        replies.last() is Waiting ==> next.after(replies).borrowed.contains(next.borrowed.last()),
{
    law_lend_keeps_valid(pool, Some(loan), next);
    law_sent_item_is_not_lost(next, cx, replies, next.borrowed.len() - 1, item);
}

/// A borrowed item that has come back counts as available exactly once: with the receiver that
/// stands for the newest loan in it, a round that finds the item arrived leads to where the round
/// would lead without that loan, with the item put in.
pub proof fn law_returned_loan_is_put<'c, S: PoolStore>(
    pool: PoolState<S>,
    loan: Loan<S::Item>,
    next: PoolState<S>,
    item: S::Item,
    cx: Option<Context<'c>>,
    replies: Seq<Reply<S::Item>>,
)
    requires
        pool.valid(),
        pool.lends(Some(loan), next),
        forall|rx: Receiver<S::Item>| #[trigger]
            paired(loan.sender, rx) ==> answers(rx@, Reply::Returned(item)),
        replies.len() == next.borrowed.len(),
        replied(cx, next.borrowed.last(), replies.last()),
        replies.last() !is Waiting,
    ensures
        next.after(replies) == (PoolState::<S> {
            ready: next.ready,
            borrowed: pool.borrowed,
        }).after(replies.drop_last()).with(item),
{
    law_loan_comes_back(pool, loan, next, item, cx, replies);
    let earlier = replies.drop_last();
    lemma_same_waiting(next.borrowed, pool.borrowed, earlier);
    S::law_with_one_more(next.ready, returned(earlier), item);
    assert(next.after(replies).borrowed =~= kept(pool.borrowed, earlier));
}

/// Who waits depends on the receivers that were asked alone.
proof fn lemma_same_waiting<T>(
    more: Seq<Receiver<T>>,
    fewer: Seq<Receiver<T>>,
    replies: Seq<Reply<T>>,
)
    requires
        replies.len() <= fewer.len() <= more.len(),
        forall|i: int| 0 <= i < fewer.len() ==> #[trigger] more[i] == fewer[i],
    ensures
        waiting(more, replies) == waiting(fewer, replies),
    decreases replies.len(),
{
    if replies.len() > 0 {
        lemma_same_waiting(more, fewer, replies.drop_last());
    }
}

/// The pool makes up no items: one that is ready after a round was ready before, or came back.
pub proof fn law_no_item_is_made_up<'c, S: PoolStore>(
    pool: PoolState<S>,
    cx: Option<Context<'c>>,
    replies: Seq<Reply<S::Item>>,
    item: S::Item,
)
    requires
        replies.len() <= pool.borrowed.len(),
        forall|i: int|
            0 <= i < replies.len() ==> replied(cx, #[trigger] pool.borrowed[i], replies[i]),
        S::holds(pool.after(replies).ready, item),
    ensures
        S::holds(pool.ready, item) || exists|i: int|
            0 <= i < pool.borrowed.len() && answers(
                (#[trigger] pool.borrowed[i])@,
                Reply::Returned(item),
            ),
{
    S::law_with_all(pool.ready, returned(replies));
    if !S::holds(pool.ready, item) {
        law_returned_items(replies, item);
        let i = choose|i: int|
            0 <= i < replies.len() && #[trigger] replies[i] == Reply::Returned(item);
        law_reply_is_resolution(cx, pool.borrowed[i], replies[i]);
    }
}

/// Where no item is found lost, lending is trying to lend.
pub proof fn law_lend_is_tried_lend<S: PoolStore>(
    pool: PoolState<S>,
    lent: Option<Loan<S::Item>>,
    next: PoolState<S>,
)
    requires
        pool.lends_unless_lost(None, Ok(lent), next),
    ensures
        pool.tries_to_lend(lent, next),
{
}

/// Where no item is found lost, popping is trying to pop.
pub proof fn law_pop_is_tried_pop<S: PoolStore>(
    pool: PoolState<S>,
    taken: Option<S::Item>,
    next: PoolState<S>,
)
    requires
        pool.pops_unless_lost(None, Ok(taken), next),
    ensures
        pool.tries_to_pop(taken, next),
{
}

/// Lending reports a loss only if an item is lost: never, as long as every item that is out comes
/// back one day.
pub proof fn law_lend_reports_true_losses<'c, S: PoolStore>(
    pool: PoolState<S>,
    cx: Option<Context<'c>>,
    outcome: Result<Option<Loan<S::Item>>, ItemLost>,
    next: PoolState<S>,
)
    requires
        pool.valid(),
        pool.lends_unless_lost(cx, outcome, next),
        forall|i: int| 0 <= i < pool.borrowed.len() ==> (#[trigger] pool.borrowed[i])@ is Ok,
    ensures
        outcome is Ok,
{
    let replies = choose|replies: Seq<Reply<S::Item>>|
        {
            let asked = #[trigger] pool.after(replies);
            &&& asked_until_lost(cx, pool.borrowed, replies, outcome)
            &&& match outcome {
                Ok(lent) => asked.lends(lent, next),
                Err(_) => next == asked,
            }
        };
    if outcome is Err {
        law_reply_is_resolution(cx, pool.borrowed[replies.len() as int], Reply::Lost);
    }
}

/// Popping reports a loss only if an item is lost: never, as long as every item that is out comes
/// back one day.
pub proof fn law_pop_reports_true_losses<'c, S: PoolStore>(
    pool: PoolState<S>,
    cx: Option<Context<'c>>,
    outcome: Result<Option<S::Item>, ItemLost>,
    next: PoolState<S>,
)
    requires
        pool.valid(),
        pool.pops_unless_lost(cx, outcome, next),
        forall|i: int| 0 <= i < pool.borrowed.len() ==> (#[trigger] pool.borrowed[i])@ is Ok,
    ensures
        outcome is Ok,
{
    let replies = choose|replies: Seq<Reply<S::Item>>|
        {
            let asked = #[trigger] pool.after(replies);
            &&& asked_until_lost(cx, pool.borrowed, replies, outcome)
            &&& match outcome {
                Ok(taken) => asked.pops(taken, next),
                Err(_) => next == asked,
            }
        };
    if outcome is Err {
        law_reply_is_resolution(cx, pool.borrowed[replies.len() as int], Reply::Lost);
    }
}

/// As long as no borrowed item comes back, asking for them changes nothing.
pub proof fn law_quiet_pool<S: PoolStore>(pool: PoolState<S>, replies: Seq<Reply<S::Item>>)
    requires
        replies.len() == pool.borrowed.len(),
        forall|i: int| 0 <= i < replies.len() ==> #[trigger] replies[i] is Waiting,
    ensures
        pool.after(replies) == pool,
{
    law_quiet_round(pool.borrowed, replies);
    S::law_with_none(pool.ready);
}

/// Where no item is out there is nothing to ask for.
pub proof fn lemma_nothing_out<S: PoolStore>(pool: PoolState<S>)
    requires
        pool.borrowed.len() == 0,
    ensures
        forall|replies: Seq<Reply<S::Item>>|
            replies.len() == 0 ==> #[trigger] pool.after(replies) == pool,
{
    assert forall|replies: Seq<Reply<S::Item>>| replies.len() == 0 implies #[trigger] pool.after(
        replies,
    ) == pool by {
        law_quiet_pool(pool, replies);
    }
}

/// While every item is out, asking for one changes nothing and yields none.
pub proof fn law_exhausted_pool_waits<S: PoolStore>(
    pool: PoolState<S>,
    replies: Seq<Reply<S::Item>>,
    taken: Option<S::Item>,
    next: PoolState<S>,
)
    requires
        S::size(pool.ready) == 0,
        replies.len() == pool.borrowed.len(),
        forall|i: int| 0 <= i < replies.len() ==> #[trigger] replies[i] is Waiting,
        pool.after(replies).pops(taken, next),
    ensures
        taken is None,
        next == pool,
{
    law_quiet_pool(pool, replies);
    S::law_takes(pool.after(replies).ready, taken, next.ready);
}

/// Trying to lend acts on answers that the channel gave: every receiver has one that `try_recv`
/// gave for it, and each has its effect.
pub proof fn law_tried_lend_is_answered<S: PoolStore>(
    pool: PoolState<S>,
    lent: Option<Loan<S::Item>>,
    next: PoolState<S>,
)
    requires
        pool.tries_to_lend(lent, next),
    ensures
        exists|replies: Seq<Reply<S::Item>>|
            {
                let asked = #[trigger] pool.after(replies);
                &&& replies.len() == pool.borrowed.len()
                &&& forall|i: int|
                    0 <= i < replies.len() ==> {
                        &&& match #[trigger] replies[i] {
                            Reply::Returned(item) => S::holds(asked.ready, item),
                            Reply::Waiting => asked.borrowed.contains(pool.borrowed[i]),
                            Reply::Lost => true,
                        }
                        &&& exists|handle: &mut Receiver<S::Item>|
                            *handle == pool.borrowed[i] && #[trigger] call_ensures(
                                try_recv::<S::Item>,
                                (handle,),
                                replies[i],
                            )
                    }
                &&& asked.lends(lent, next)
            },
{
    let replies = choose|replies: Seq<Reply<S::Item>>|
        all_asked(None, pool.borrowed, replies) && (#[trigger] pool.after(replies)).lends(
            lent,
            next,
        );
    law_each_reply_has_its_effect(None, pool.borrowed, replies);
    S::law_with_all(pool.ready, returned(replies));
    let asked = pool.after(replies);
    assert forall|i: int| 0 <= i < replies.len() implies match #[trigger] replies[i] {
        Reply::Returned(item) => S::holds(asked.ready, item),
        Reply::Waiting => asked.borrowed.contains(pool.borrowed[i]),
        Reply::Lost => true,
    } by {}
}

/// Where no item is lent out, none is ready, and every receiver that is left said just then that
/// its item is still out: each was asked by `try_recv`.
pub proof fn law_none_lent_in_vain<S: PoolStore>(
    pool: PoolState<S>,
    next: PoolState<S>,
    k: int,
)
    requires
        pool.tries_to_lend(None, next),
        0 <= k < next.borrowed.len(),
    ensures
        S::size(next.ready) == 0,
        pool.borrowed.contains(next.borrowed[k]),
        exists|handle: &mut Receiver<S::Item>|
            *handle == next.borrowed[k] && #[trigger] call_ensures(
                try_recv::<S::Item>,
                (handle,),
                Reply::Waiting,
            ),
{
    let replies = choose|replies: Seq<Reply<S::Item>>|
        all_asked(None, pool.borrowed, replies) && (#[trigger] pool.after(replies)).lends(
            None,
            next,
        );
    S::law_takes(pool.after(replies).ready, None, next.ready);
    law_kept_were_told_to_wait(None, pool.borrowed, replies, k);
}

/// Lending acts on answers that the channel gave: each receiver that is asked has one, given to
/// `try_recv` or, in a task, to a poll with the context of that task, and each has its effect. A
/// loss is reported only where the channel reported one.
pub proof fn law_lend_is_answered<'c, S: PoolStore>(
    pool: PoolState<S>,
    cx: Option<Context<'c>>,
    outcome: Result<Option<Loan<S::Item>>, ItemLost>,
    next: PoolState<S>,
)
    requires
        pool.lends_unless_lost(cx, outcome, next),
    ensures
        exists|replies: Seq<Reply<S::Item>>|
            {
                let asked = #[trigger] pool.after(replies);
                &&& replies.len() <= pool.borrowed.len()
                &&& forall|i: int|
                    0 <= i < replies.len() ==> {
                        &&& match #[trigger] replies[i] {
                            Reply::Returned(item) => S::holds(asked.ready, item),
                            Reply::Waiting => asked.borrowed.contains(pool.borrowed[i]),
                            Reply::Lost => false,
                        }
                        &&& match cx {
                            Some(cx) => exists|handle: &mut Receiver<S::Item>, task: &mut Context<'c>|
                                *handle == pool.borrowed[i] && *task == cx
                                    && #[trigger] call_ensures(
                                    poll_recv::<S::Item>,
                                    (handle, task),
                                    replies[i],
                                ),
                            None => exists|handle: &mut Receiver<S::Item>|
                                *handle == pool.borrowed[i] && #[trigger] call_ensures(
                                    try_recv::<S::Item>,
                                    (handle,),
                                    replies[i],
                                ),
                        }
                    }
                &&& match outcome {
                    Ok(lent) => replies.len() == pool.borrowed.len() && asked.lends(lent, next),
                    Err(_) => {
                        &&& replies.len() < pool.borrowed.len()
                        &&& next == asked
                        &&& match cx {
                            Some(cx) => exists|handle: &mut Receiver<S::Item>, task: &mut Context<'c>|
                                *handle == pool.borrowed[replies.len() as int] && *task == cx
                                    && #[trigger] call_ensures(
                                    poll_recv::<S::Item>,
                                    (handle, task),
                                    Reply::Lost,
                                ),
                            None => exists|handle: &mut Receiver<S::Item>|
                                *handle == pool.borrowed[replies.len() as int] && #[trigger] call_ensures(
                                    try_recv::<S::Item>,
                                    (handle,),
                                    Reply::Lost,
                                ),
                        }
                    },
                }
            },
{
    let replies = choose|replies: Seq<Reply<S::Item>>|
        {
            let asked = #[trigger] pool.after(replies);
            &&& asked_until_lost(cx, pool.borrowed, replies, outcome)
            &&& match outcome {
                Ok(lent) => asked.lends(lent, next),
                Err(_) => next == asked,
            }
        };
    law_each_reply_has_its_effect(cx, pool.borrowed, replies);
    S::law_with_all(pool.ready, returned(replies));
    if outcome is Err {
        law_reply_is_an_answer(cx, pool.borrowed[replies.len() as int], Reply::Lost);
    }
    let asked = pool.after(replies);
    assert forall|i: int| 0 <= i < replies.len() implies match #[trigger] replies[i] {
        Reply::Returned(item) => S::holds(asked.ready, item),
        Reply::Waiting => asked.borrowed.contains(pool.borrowed[i]),
        Reply::Lost => false,
    } by {}
}

/// Where no item is lent out, none is ready, and every receiver that is left said just then that
/// its item is still out: to `try_recv` or, in a task, to a poll with the context of that task, so
/// that the task is woken whichever item comes back.
pub proof fn law_none_lent_while_all_wait<'c, S: PoolStore>(
    pool: PoolState<S>,
    cx: Option<Context<'c>>,
    next: PoolState<S>,
    k: int,
)
    requires
        pool.lends_unless_lost(cx, Ok(None), next),
        0 <= k < next.borrowed.len(),
    ensures
        S::size(next.ready) == 0,
        pool.borrowed.contains(next.borrowed[k]),
        match cx {
            Some(cx) => exists|handle: &mut Receiver<S::Item>, task: &mut Context<'c>|
            *handle == next.borrowed[k] && *task == cx && #[trigger] call_ensures(
                poll_recv::<S::Item>,
                (handle, task),
                Reply::Waiting,
            ),
            None => exists|handle: &mut Receiver<S::Item>|
            *handle == next.borrowed[k] && #[trigger] call_ensures(
                try_recv::<S::Item>,
                (handle,),
                Reply::Waiting,
            ),
        },
{
    let replies = choose|replies: Seq<Reply<S::Item>>|
        asked_until_lost(cx, pool.borrowed, replies, Ok::<Option<Loan<S::Item>>, ItemLost>(None))
            && (#[trigger] pool.after(replies)).lends(None, next);
    S::law_takes(pool.after(replies).ready, None, next.ready);
    law_kept_were_told_to_wait(cx, pool.borrowed, replies, k);
}

/// Trying to pop acts on answers that the channel gave: every receiver has one that `try_recv` gave
/// for it, and each has its effect.
pub proof fn law_tried_pop_is_answered<S: PoolStore>(
    pool: PoolState<S>,
    taken: Option<S::Item>,
    next: PoolState<S>,
)
    requires
        pool.tries_to_pop(taken, next),
    ensures
        exists|replies: Seq<Reply<S::Item>>|
            {
                let asked = #[trigger] pool.after(replies);
                &&& replies.len() == pool.borrowed.len()
                &&& forall|i: int|
                    0 <= i < replies.len() ==> {
                        &&& match #[trigger] replies[i] {
                            Reply::Returned(item) => S::holds(asked.ready, item),
                            Reply::Waiting => asked.borrowed.contains(pool.borrowed[i]),
                            Reply::Lost => true,
                        }
                        &&& exists|handle: &mut Receiver<S::Item>|
                            *handle == pool.borrowed[i] && #[trigger] call_ensures(
                                try_recv::<S::Item>,
                                (handle,),
                                replies[i],
                            )
                    }
                &&& asked.pops(taken, next)
            },
{
    let replies = choose|replies: Seq<Reply<S::Item>>|
        all_asked(None, pool.borrowed, replies) && (#[trigger] pool.after(replies)).pops(
            taken,
            next,
        );
    law_each_reply_has_its_effect(None, pool.borrowed, replies);
    S::law_with_all(pool.ready, returned(replies));
    let asked = pool.after(replies);
    assert forall|i: int| 0 <= i < replies.len() implies match #[trigger] replies[i] {
        Reply::Returned(item) => S::holds(asked.ready, item),
        Reply::Waiting => asked.borrowed.contains(pool.borrowed[i]),
        Reply::Lost => true,
    } by {}
}

/// Where no item is popped, none is ready, and every receiver that is left said just then that its
/// item is still out: each was asked by `try_recv`.
pub proof fn law_none_popped_in_vain<S: PoolStore>(
    pool: PoolState<S>,
    next: PoolState<S>,
    k: int,
)
    requires
        pool.tries_to_pop(None, next),
        0 <= k < next.borrowed.len(),
    ensures
        S::size(next.ready) == 0,
        pool.borrowed.contains(next.borrowed[k]),
        exists|handle: &mut Receiver<S::Item>|
            *handle == next.borrowed[k] && #[trigger] call_ensures(
                try_recv::<S::Item>,
                (handle,),
                Reply::Waiting,
            ),
{
    let replies = choose|replies: Seq<Reply<S::Item>>|
        all_asked(None, pool.borrowed, replies) && (#[trigger] pool.after(replies)).pops(
            None,
            next,
        );
    S::law_takes(pool.after(replies).ready, None, next.ready);
    law_kept_were_told_to_wait(None, pool.borrowed, replies, k);
}

/// Popping acts on answers that the channel gave: each receiver that is asked has one, given to
/// `try_recv` or, in a task, to a poll with the context of that task, and each has its effect. A
/// loss is reported only where the channel reported one.
pub proof fn law_pop_is_answered<'c, S: PoolStore>(
    pool: PoolState<S>,
    cx: Option<Context<'c>>,
    outcome: Result<Option<S::Item>, ItemLost>,
    next: PoolState<S>,
)
    requires
        pool.pops_unless_lost(cx, outcome, next),
    ensures
        exists|replies: Seq<Reply<S::Item>>|
            {
                let asked = #[trigger] pool.after(replies);
                &&& replies.len() <= pool.borrowed.len()
                &&& forall|i: int|
                    0 <= i < replies.len() ==> {
                        &&& match #[trigger] replies[i] {
                            Reply::Returned(item) => S::holds(asked.ready, item),
                            Reply::Waiting => asked.borrowed.contains(pool.borrowed[i]),
                            Reply::Lost => false,
                        }
                        &&& match cx {
                            Some(cx) => exists|handle: &mut Receiver<S::Item>, task: &mut Context<'c>|
                                *handle == pool.borrowed[i] && *task == cx
                                    && #[trigger] call_ensures(
                                    poll_recv::<S::Item>,
                                    (handle, task),
                                    replies[i],
                                ),
                            None => exists|handle: &mut Receiver<S::Item>|
                                *handle == pool.borrowed[i] && #[trigger] call_ensures(
                                    try_recv::<S::Item>,
                                    (handle,),
                                    replies[i],
                                ),
                        }
                    }
                &&& match outcome {
                    Ok(taken) => replies.len() == pool.borrowed.len() && asked.pops(taken, next),
                    Err(_) => {
                        &&& replies.len() < pool.borrowed.len()
                        &&& next == asked
                        &&& match cx {
                            Some(cx) => exists|handle: &mut Receiver<S::Item>, task: &mut Context<'c>|
                                *handle == pool.borrowed[replies.len() as int] && *task == cx
                                    && #[trigger] call_ensures(
                                    poll_recv::<S::Item>,
                                    (handle, task),
                                    Reply::Lost,
                                ),
                            None => exists|handle: &mut Receiver<S::Item>|
                                *handle == pool.borrowed[replies.len() as int] && #[trigger] call_ensures(
                                    try_recv::<S::Item>,
                                    (handle,),
                                    Reply::Lost,
                                ),
                        }
                    },
                }
            },
{
    let replies = choose|replies: Seq<Reply<S::Item>>|
        {
            let asked = #[trigger] pool.after(replies);
            &&& asked_until_lost(cx, pool.borrowed, replies, outcome)
            &&& match outcome {
                Ok(taken) => asked.pops(taken, next),
                Err(_) => next == asked,
            }
        };
    law_each_reply_has_its_effect(cx, pool.borrowed, replies);
    S::law_with_all(pool.ready, returned(replies));
    if outcome is Err {
        law_reply_is_an_answer(cx, pool.borrowed[replies.len() as int], Reply::Lost);
    }
    let asked = pool.after(replies);
    assert forall|i: int| 0 <= i < replies.len() implies match #[trigger] replies[i] {
        Reply::Returned(item) => S::holds(asked.ready, item),
        Reply::Waiting => asked.borrowed.contains(pool.borrowed[i]),
        Reply::Lost => false,
    } by {}
}

/// Where no item is popped, none is ready, and every receiver that is left said just then that its
/// item is still out: to `try_recv` or, in a task, to a poll with the context of that task, so that
/// the task is woken whichever item comes back.
pub proof fn law_none_popped_while_all_wait<'c, S: PoolStore>(
    pool: PoolState<S>,
    cx: Option<Context<'c>>,
    next: PoolState<S>,
    k: int,
)
    requires
        pool.pops_unless_lost(cx, Ok(None), next),
        0 <= k < next.borrowed.len(),
    ensures
        S::size(next.ready) == 0,
        pool.borrowed.contains(next.borrowed[k]),
        match cx {
            Some(cx) => exists|handle: &mut Receiver<S::Item>, task: &mut Context<'c>|
            *handle == next.borrowed[k] && *task == cx && #[trigger] call_ensures(
                poll_recv::<S::Item>,
                (handle, task),
                Reply::Waiting,
            ),
            None => exists|handle: &mut Receiver<S::Item>|
            *handle == next.borrowed[k] && #[trigger] call_ensures(
                try_recv::<S::Item>,
                (handle,),
                Reply::Waiting,
            ),
        },
{
    let replies = choose|replies: Seq<Reply<S::Item>>|
        asked_until_lost(cx, pool.borrowed, replies, Ok::<Option<S::Item>, ItemLost>(None))
            && (#[trigger] pool.after(replies)).pops(None, next);
    S::law_takes(pool.after(replies).ready, None, next.ready);
    law_kept_were_told_to_wait(cx, pool.borrowed, replies, k);
}

} // verus!
