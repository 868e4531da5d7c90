//! What holds of a pool over a whole history of calls.

use crate::channel::{answers, replied, ItemLost, Reply};
use crate::internal::PoolStore;
use crate::lease::Loan;
use crate::round::{
    all_asked, asked_until_lost, kept, law_waiting_receiver_stays, lemma_none_lost,
    lemma_none_lost_if_all_return, lost, waiting,
};
use crate::state::{
    law_lend_after_round_count, law_lend_keeps_valid, law_pop_after_round_count, law_put_count,
    law_round_count, law_round_keeps_valid, law_sent_item_is_not_lost, PoolState,
};
use std::task::Context;
use vstd::future::FutureAdditionalSpecFns;
use vstd::prelude::*;

verus! {

/// What a call does to a pool, with the answers that its receivers gave.
#[verifier::reject_recursive_types(S)]
pub enum Step<'c, S: PoolStore> {
    /// An item is put in.
    Put(S::Item),
    /// All receivers are asked, in a task if there is one, and of what is ready then an item is
    /// lent out.
    Lend(Option<Context<'c>>, Seq<Reply<S::Item>>, Option<Loan<S::Item>>),
    /// All receivers are asked, in a task if there is one, and of what is ready then an item is
    /// taken out.
    Pop(Option<Context<'c>>, Seq<Reply<S::Item>>, Option<S::Item>),
    /// The receivers are asked, in a task if there is one, up to one that reports a loss, and the
    /// call fails.
    Fail(Option<Context<'c>>, Seq<Reply<S::Item>>),
    /// The pool is looked at or shrunk.
    Rest,
}

impl<'c, S: PoolStore> Step<'c, S> {
    /// How many items are put in.
    pub open spec fn puts(self) -> nat {
        if self is Put {
            1
        } else {
            0
        }
    }

    /// How many items are popped.
    pub open spec fn pops(self) -> nat {
        if self matches Step::Pop(_, _, Some(_)) {
            1
        } else {
            0
        }
    }

    /// How many items the pool gives up because they are reported lost.
    pub open spec fn losses(self) -> nat {
        match self {
            Step::Lend(_, replies, _) => lost(replies),
            Step::Pop(_, replies, _) => lost(replies),
            _ => 0,
        }
    }

    /// What the receivers answered, as far as they were asked and did not end the call.
    pub open spec fn replies(self) -> Seq<Reply<S::Item>> {
        match self {
            Step::Lend(_, replies, _) => replies,
            Step::Pop(_, replies, _) => replies,
            Step::Fail(_, replies) => replies,
            _ => Seq::empty(),
        }
    }

    /// In which task the receivers were asked, if in one.
    pub open spec fn task(self) -> Option<Context<'c>> {
        match self {
            Step::Lend(cx, _, _) => cx,
            Step::Pop(cx, _, _) => cx,
            Step::Fail(cx, _) => cx,
            _ => None,
        }
    }

    /// Whether the step can lead from `pool` to `next`.
    pub open spec fn leads(self, pool: PoolState<S>, next: PoolState<S>) -> bool {
        match self {
            Step::Put(item) => next == pool.with(item),
            Step::Lend(cx, replies, lent) => all_asked(cx, pool.borrowed, replies) && pool.after(
                replies,
            ).lends(lent, next),
            Step::Pop(cx, replies, taken) => all_asked(cx, pool.borrowed, replies) && pool.after(
                replies,
            ).pops(taken, next),
            Step::Fail(cx, replies) => asked_until_lost(
                cx,
                pool.borrowed,
                replies,
                Err::<(), ItemLost>(ItemLost),
            ) && next == pool.after(replies),
            Step::Rest => next == pool,
        }
    }
}

/// Whether `states` are the states of a pool between the steps of `steps`, with those before the
/// first and behind the last.
pub open spec fn is_history<'c, S: PoolStore>(
    states: Seq<PoolState<S>>,
    steps: Seq<Step<'c, S>>,
) -> bool {
    &&& states.len() == steps.len() + 1
    &&& forall|i: int|
        0 <= i < steps.len() ==> (#[trigger] steps[i]).leads(states[i], states[i + 1])
}

/// How many items were put in.
pub open spec fn puts<'c, S: PoolStore>(steps: Seq<Step<'c, S>>) -> nat
    decreases steps.len(),
{
    if steps.len() == 0 {
        0
    } else {
        puts(steps.drop_last()) + steps.last().puts()
    }
}

/// How many items were popped.
pub open spec fn pops<'c, S: PoolStore>(steps: Seq<Step<'c, S>>) -> nat
    decreases steps.len(),
{
    if steps.len() == 0 {
        0
    } else {
        pops(steps.drop_last()) + steps.last().pops()
    }
}

/// How many items the pool gave up because they were reported lost.
pub open spec fn losses<'c, S: PoolStore>(steps: Seq<Step<'c, S>>) -> nat
    decreases steps.len(),
{
    if steps.len() == 0 {
        0
    } else {
        losses(steps.drop_last()) + steps.last().losses()
    }
}

/// What `try_get` does is a step.
pub proof fn law_tried_lend_is_step<S: PoolStore>(
    pool: PoolState<S>,
    lent: Option<Loan<S::Item>>,
    next: PoolState<S>,
)
    requires
        pool.tries_to_lend(lent, next),
    ensures
        exists|replies: Seq<Reply<S::Item>>| #[trigger]
            Step::<S>::Lend(None, replies, lent).leads(pool, next),
{
    let replies = choose|replies: Seq<Reply<S::Item>>|
        all_asked(None, pool.borrowed, replies) && (#[trigger] pool.after(replies)).lends(
            lent,
            next,
        );
    assert(Step::<S>::Lend(None, replies, lent).leads(pool, next));
}

/// What `try_pop` does is a step.
pub proof fn law_tried_pop_is_step<S: PoolStore>(
    pool: PoolState<S>,
    taken: Option<S::Item>,
    next: PoolState<S>,
)
    requires
        pool.tries_to_pop(taken, next),
    ensures
        exists|replies: Seq<Reply<S::Item>>| #[trigger]
            Step::<S>::Pop(None, replies, taken).leads(pool, next),
{
    let replies = choose|replies: Seq<Reply<S::Item>>|
        all_asked(None, pool.borrowed, replies) && (#[trigger] pool.after(replies)).pops(
            taken,
            next,
        );
    assert(Step::<S>::Pop(None, replies, taken).leads(pool, next));
}

/// What getting an item does, by an attempt or by a poll, is a step, and one that gives up no item.
pub proof fn law_lend_is_step<'c, S: PoolStore>(
    pool: PoolState<S>,
    cx: Option<Context<'c>>,
    outcome: Result<Option<Loan<S::Item>>, ItemLost>,
    next: PoolState<S>,
)
    requires
        pool.lends_unless_lost(cx, outcome, next),
    ensures
        exists|step: Step<'c, S>|
            {
                &&& #[trigger] step.leads(pool, next)
                &&& step.losses() == 0
                &&& match outcome {
                    Ok(lent) => step matches Step::Lend(task, _, out) && task == cx && out == lent,
                    Err(_) => step matches Step::Fail(task, _) && task == cx,
                }
            },
{
    let replies = choose|replies: Seq<Reply<S::Item>>|
        {
            let asked = #[trigger] pool.after(replies);
            &&& asked_until_lost(cx, pool.borrowed, replies, outcome)
            &&& match outcome {
                Ok(lent) => asked.lends(lent, next),
                Err(_) => next == asked,
            }
        };
    lemma_none_lost(replies);
    match outcome {
        Ok(lent) => assert(Step::<S>::Lend(cx, replies, lent).leads(pool, next)),
        Err(_) => assert(Step::<S>::Fail(cx, replies).leads(pool, next)),
    }
}

/// What popping an item does, by an attempt or by a poll, is a step, and one that gives up no item.
pub proof fn law_pop_is_step<'c, S: PoolStore>(
    pool: PoolState<S>,
    cx: Option<Context<'c>>,
    outcome: Result<Option<S::Item>, ItemLost>,
    next: PoolState<S>,
)
    requires
        pool.pops_unless_lost(cx, outcome, next),
    ensures
        exists|step: Step<'c, S>|
            {
                &&& #[trigger] step.leads(pool, next)
                &&& step.losses() == 0
                &&& match outcome {
                    Ok(taken) => step matches Step::Pop(task, _, out) && task == cx && out == taken,
                    Err(_) => step matches Step::Fail(task, _) && task == cx,
                }
            },
{
    let replies = choose|replies: Seq<Reply<S::Item>>|
        {
            let asked = #[trigger] pool.after(replies);
            &&& asked_until_lost(cx, pool.borrowed, replies, outcome)
            &&& match outcome {
                Ok(taken) => asked.pops(taken, next),
                Err(_) => next == asked,
            }
        };
    lemma_none_lost(replies);
    match outcome {
        Ok(taken) => assert(Step::<S>::Pop(cx, replies, taken).leads(pool, next)),
        Err(_) => assert(Step::<S>::Fail(cx, replies).leads(pool, next)),
    }
}

/// A step changes the size of the pool by what is put in, popped and given up, and by nothing else.
pub proof fn law_step_count<'c, S: PoolStore>(
    step: Step<'c, S>,
    pool: PoolState<S>,
    next: PoolState<S>,
)
    requires
        step.leads(pool, next),
    ensures
        next.count() + step.pops() + step.losses() == pool.count() + step.puts(),
{
    match step {
        Step::Put(item) => law_put_count(pool, item),
        Step::Lend(_, replies, lent) => law_lend_after_round_count(pool, replies, lent, next),
        Step::Pop(_, replies, taken) => law_pop_after_round_count(pool, replies, taken, next),
        Step::Fail(_, replies) => {
            lemma_none_lost(replies);
            law_round_count(pool, replies);
        },
        Step::Rest => {},
    }
}

/// Over any history, the size of the pool is what it was at first and the items put in, less those
/// popped and those given up because they were reported lost. Items that are ready, on loan or
/// returned all count, each once.
pub proof fn law_count_over_history<'c, S: PoolStore>(
    states: Seq<PoolState<S>>,
    steps: Seq<Step<'c, S>>,
)
    requires
        is_history(states, steps),
    ensures
        states.last().count() + pops(steps) + losses(steps) == states[0].count() + puts(steps),
    decreases steps.len(),
{
    if steps.len() > 0 {
        let n = steps.len() - 1;
        let earlier = states.drop_last();
        assert forall|i: int| 0 <= i < n implies (#[trigger] steps.drop_last()[i]).leads(
            earlier[i],
            earlier[i + 1],
        ) by {
            assert(steps[i].leads(states[i], states[i + 1]));
        }
        law_count_over_history(earlier, steps.drop_last());
        assert(steps[n].leads(states[n], states[n + 1]));
        law_step_count(steps[n], states[n], states[n + 1]);
    }
}

/// A pool stays valid over a step.
pub proof fn law_step_keeps_valid<'c, S: PoolStore>(
    step: Step<'c, S>,
    pool: PoolState<S>,
    next: PoolState<S>,
)
    requires
        pool.valid(),
        step.leads(pool, next),
    ensures
        next.valid(),
{
    match step {
        Step::Lend(_, replies, lent) => {
            law_round_keeps_valid(pool, replies);
            law_lend_keeps_valid(pool.after(replies), lent, next);
        },
        Step::Pop(_, replies, _) => law_round_keeps_valid(pool, replies),
        Step::Fail(_, replies) => law_round_keeps_valid(pool, replies),
        _ => {},
    }
}

/// A pool that was valid at first is valid throughout its history.
pub proof fn law_history_keeps_valid<'c, S: PoolStore>(
    states: Seq<PoolState<S>>,
    steps: Seq<Step<'c, S>>,
    i: int,
)
    requires
        is_history(states, steps),
        states[0].valid(),
        0 <= i < states.len(),
    ensures
        states[i].valid(),
    decreases i,
{
    if i > 0 {
        law_history_keeps_valid(states, steps, i - 1);
        assert(steps[i - 1].leads(states[i - 1], states[i]));
        law_step_keeps_valid(steps[i - 1], states[i - 1], states[i]);
    }
}

/// A history in which every item that is out comes back one day gives up no item: its size is that
/// of the pool at first and the items put in, less those popped.
pub proof fn law_count_without_losses<'c, S: PoolStore>(
    states: Seq<PoolState<S>>,
    steps: Seq<Step<'c, S>>,
)
    requires
        is_history(states, steps),
        states[0].valid(),
        forall|k: int, i: int|
            0 <= k < steps.len() && 0 <= i < states[k].borrowed.len() ==> (
            #[trigger] states[k].borrowed[i])@ is Ok,
    ensures
        losses(steps) == 0,
        states.last().count() + pops(steps) == states[0].count() + puts(steps),
    decreases steps.len(),
{
    law_count_over_history(states, steps);
    if steps.len() > 0 {
        let n = steps.len() - 1;
        let earlier = states.drop_last();
        assert forall|i: int| 0 <= i < n implies (#[trigger] steps.drop_last()[i]).leads(
            earlier[i],
            earlier[i + 1],
        ) by {
            assert(steps[i].leads(states[i], states[i + 1]));
        }
        assert forall|k: int, i: int|
            0 <= k < n && 0 <= i < earlier[k].borrowed.len() implies (
        #[trigger] earlier[k].borrowed[i])@ is Ok by {
            assert(states[k].borrowed[i]@ is Ok);
        }
        law_count_without_losses(earlier, steps.drop_last());
        assert(steps[n].leads(states[n], states[n + 1]));
        law_history_keeps_valid(states, steps, n);
        match steps[n] {
            Step::Lend(cx, replies, _) => {
                lemma_none_lost_if_all_return(cx, states[n].borrowed, replies);
            },
            Step::Pop(cx, replies, _) => {
                lemma_none_lost_if_all_return(cx, states[n].borrowed, replies);
            },
            _ => {},
        }
    }
}

/// A receiver is kept over a step unless it answered that its item is back or lost.
pub proof fn law_step_keeps_receiver<'c, S: PoolStore>(
    step: Step<'c, S>,
    pool: PoolState<S>,
    next: PoolState<S>,
    i: int,
)
    requires
        step.leads(pool, next),
        0 <= i < pool.borrowed.len(),
        i < step.replies().len() ==> step.replies()[i] is Waiting,
    ensures
        next.borrowed.contains(pool.borrowed[i]),
{
    let rx = pool.borrowed[i];
    let replies = step.replies();
    let asked = kept(pool.borrowed, replies);
    if i < replies.len() {
        law_waiting_receiver_stays(pool.borrowed, replies, i);
    } else {
        assert(asked[waiting(pool.borrowed, replies).len() + (i - replies.len())] == rx);
    }
    let k = asked.index_of(rx);
    match step {
        Step::Put(_) => assert(next.borrowed[i] == rx),
        Step::Rest => assert(next.borrowed[i] == rx),
        Step::Lend(_, _, Some(_)) => {
            assert(next.borrowed.drop_last()[k] == rx);
            assert(next.borrowed[k] == rx);
        },
        _ => assert(next.borrowed[k] == rx),
    }
}

/// A borrowed item that has been sent back is not lost over a step: it is ready when the receivers
/// have been asked, or its receiver is kept.
pub proof fn law_step_keeps_sent_item<'c, S: PoolStore>(
    step: Step<'c, S>,
    pool: PoolState<S>,
    next: PoolState<S>,
    i: int,
    item: S::Item,
)
    requires
        pool.valid(),
        step.leads(pool, next),
        0 <= i < pool.borrowed.len(),
        answers(pool.borrowed[i]@, Reply::Returned(item)),
    ensures
        next.borrowed.contains(pool.borrowed[i]) || S::holds(
            pool.after(step.replies()).ready,
            item,
        ),
{
    let replies = step.replies();
    if i < replies.len() {
        assert(replied(step.task(), pool.borrowed[i], replies[i]));
        law_sent_item_is_not_lost(pool, step.task(), replies, i, item);
    }
    if i >= replies.len() || replies[i] is Waiting {
        law_step_keeps_receiver(step, pool, next, i);
    }
}

/// A borrowed item that has been sent back is not lost over any history: at some step it is ready
/// when the receivers have been asked, or its receiver is kept to the end.
pub proof fn law_history_keeps_sent_item<'c, S: PoolStore>(
    states: Seq<PoolState<S>>,
    steps: Seq<Step<'c, S>>,
    i: int,
    item: S::Item,
)
    requires
        is_history(states, steps),
        states[0].valid(),
        0 <= i < states[0].borrowed.len(),
        answers(states[0].borrowed[i]@, Reply::Returned(item)),
    ensures
        states.last().borrowed.contains(states[0].borrowed[i]) || exists|k: int|
            0 <= k < steps.len() && S::holds(
                states[k].after((#[trigger] steps[k]).replies()).ready,
                item,
            ),
    decreases steps.len(),
{
    let rx = states[0].borrowed[i];
    if steps.len() > 0 {
        let n = steps.len() - 1;
        let earlier = states.drop_last();
        let before = steps.drop_last();
        assert forall|k: int| 0 <= k < n implies (#[trigger] before[k]).leads(
            earlier[k],
            earlier[k + 1],
        ) by {
            assert(steps[k].leads(states[k], states[k + 1]));
        }
        law_history_keeps_sent_item(earlier, before, i, item);
        if earlier.last().borrowed.contains(rx) {
            assert(steps[n].leads(states[n], states[n + 1]));
            law_history_keeps_valid(states, steps, n);
            let at = states[n].borrowed.index_of(rx);
            law_step_keeps_sent_item(steps[n], states[n], states[n + 1], at, item);
        } else {
            let k = choose|k: int|
                0 <= k < before.len() && S::holds(
                    earlier[k].after((#[trigger] before[k]).replies()).ready,
                    item,
                );
            assert(S::holds(states[k].after(steps[k].replies()).ready, item));
        }
    } else {
        assert(states.last().borrowed[i] == rx);
    }
}

} // verus!
