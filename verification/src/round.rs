//! What a round of asking the receivers of the borrowed items comes to.

use crate::channel::{
    all_made, law_reply_is_an_answer, law_reply_is_resolution, poll_recv, replied, try_recv,
    ItemLost, Reply,
};
use futures_channel::oneshot::Receiver;
use std::task::Context;
use vstd::future::FutureAdditionalSpecFns;
use vstd::prelude::*;

verus! {

/// Whether the receivers answered `replies` when all of them were asked, in the task of `cx` if
/// there is one.
pub open spec fn all_asked<'c, T>(
    cx: Option<Context<'c>>,
    receivers: Seq<Receiver<T>>,
    replies: Seq<Reply<T>>,
) -> bool {
    &&& replies.len() == receivers.len()
    &&& forall|i: int| 0 <= i < replies.len() ==> replied(cx, #[trigger] receivers[i], replies[i])
}

/// Whether the receivers answered `replies` when they were asked, in the task of `cx` if there is
/// one, up to the first that reported a loss. `outcome` is the failure if one did, whose report is
/// not among `replies`, and a success of any kind if none did.
pub open spec fn asked_until_lost<'c, T, R>(
    cx: Option<Context<'c>>,
    receivers: Seq<Receiver<T>>,
    replies: Seq<Reply<T>>,
    outcome: Result<R, ItemLost>,
) -> bool {
    &&& replies.len() <= receivers.len()
    &&& forall|i: int| 0 <= i < replies.len() ==> replied(cx, #[trigger] receivers[i], replies[i])
    &&& forall|i: int| 0 <= i < replies.len() ==> #[trigger] replies[i] !is Lost
    &&& match outcome {
        Ok(_) => replies.len() == receivers.len(),
        Err(_) => replies.len() < receivers.len() && replied(
            cx,
            receivers[replies.len() as int],
            Reply::Lost,
        ),
    }
}

/// The items that came back, in the order of the receivers that handed them out.
pub open spec fn returned<T>(replies: Seq<Reply<T>>) -> Seq<T>
    decreases replies.len(),
{
    if replies.len() == 0 {
        Seq::empty()
    } else {
        let earlier = returned(replies.drop_last());
        match replies.last() {
            Reply::Returned(item) => earlier.push(item),
            _ => earlier,
        }
    }
}

/// The receivers among the first `replies.len()` whose items are still out, in their order.
pub open spec fn waiting<T>(receivers: Seq<Receiver<T>>, replies: Seq<Reply<T>>) -> Seq<Receiver<T>>
    decreases replies.len(),
{
    if replies.len() == 0 {
        Seq::empty()
    } else {
        let earlier = waiting(receivers, replies.drop_last());
        if replies.last() is Waiting {
            earlier.push(receivers[replies.len() - 1])
        } else {
            earlier
        }
    }
}

/// How many items were reported lost.
pub open spec fn lost<T>(replies: Seq<Reply<T>>) -> nat
    decreases replies.len(),
{
    if replies.len() == 0 {
        0
    } else {
        lost(replies.drop_last()) + if replies.last() is Lost {
            1nat
        } else {
            0nat
        }
    }
}

/// The receivers that are left after the first `replies.len()` of them answered `replies`: those
/// whose items are still out, and those that were not asked.
pub open spec fn kept<T>(receivers: Seq<Receiver<T>>, replies: Seq<Reply<T>>) -> Seq<Receiver<T>> {
    waiting(receivers, replies) + receivers.skip(replies.len() as int)
}

/// What came back is the items of the answers that hand one out, all of them and in their order.
pub proof fn law_returned_is_what_was_handed_out<T>(replies: Seq<Reply<T>>)
    ensures
        returned(replies) == replies.filter(|reply: Reply<T>| reply is Returned).map_values(
            |reply: Reply<T>| reply->Returned_0,
        ),
    decreases replies.len(),
{
    reveal(Seq::filter);
    let handed = |reply: Reply<T>| reply is Returned;
    let item = |reply: Reply<T>| reply->Returned_0;
    if replies.len() > 0 {
        law_returned_is_what_was_handed_out(replies.drop_last());
        let earlier = replies.drop_last().filter(handed);
        assert(earlier.push(replies.last()).map_values(item) =~= earlier.map_values(item).push(
            replies.last()->Returned_0,
        ));
    }
    assert(returned(replies) =~= replies.filter(handed).map_values(item));
}

/// What waits is the receivers that said that their item is still out, all of them and in their
/// order.
pub proof fn law_waiting_is_what_said_so<T>(receivers: Seq<Receiver<T>>, replies: Seq<Reply<T>>)
    requires
        replies.len() <= receivers.len(),
    ensures
        waiting(receivers, replies) == receivers.take(replies.len() as int).zip_with(
            replies,
        ).filter(|asked: (Receiver<T>, Reply<T>)| asked.1 is Waiting).map_values(
            |asked: (Receiver<T>, Reply<T>)| asked.0,
        ),
    decreases replies.len(),
{
    reveal(Seq::filter);
    let waits = |asked: (Receiver<T>, Reply<T>)| asked.1 is Waiting;
    let receiver = |asked: (Receiver<T>, Reply<T>)| asked.0;
    let all = receivers.take(replies.len() as int).zip_with(replies);
    if replies.len() > 0 {
        let earlier = replies.drop_last();
        law_waiting_is_what_said_so(receivers, earlier);
        let before = receivers.take(earlier.len() as int).zip_with(earlier);
        assert(all.drop_last() =~= before);
        assert(before.filter(waits).push(all.last()).map_values(receiver) =~= before.filter(
            waits,
        ).map_values(receiver).push(all.last().0));
    }
    assert(waiting(receivers, replies) =~= all.filter(waits).map_values(receiver));
}

/// What is left is the receivers that said that their item is still out and those that were not
/// asked.
pub proof fn law_kept_is_what_waits_and_what_is_behind<T>(
    receivers: Seq<Receiver<T>>,
    replies: Seq<Reply<T>>,
)
    requires
        replies.len() <= receivers.len(),
    ensures
        kept(receivers, replies) == receivers.take(replies.len() as int).zip_with(replies).filter(
            |asked: (Receiver<T>, Reply<T>)| asked.1 is Waiting,
        ).map_values(|asked: (Receiver<T>, Reply<T>)| asked.0) + receivers.skip(
            replies.len() as int,
        ),
{
    law_waiting_is_what_said_so(receivers, replies);
}

/// How many items are lost is how many answers report a loss.
pub proof fn law_lost_is_what_was_reported<T>(replies: Seq<Reply<T>>)
    ensures
        lost(replies) == replies.filter(|reply: Reply<T>| reply is Lost).len(),
    decreases replies.len(),
{
    reveal(Seq::filter);
    if replies.len() > 0 {
        law_lost_is_what_was_reported(replies.drop_last());
    }
}

/// Each receiver that was asked outside of a task has an answer that `try_recv` gave for it, and
/// the answer has its effect: an item that was handed out has come back, and a receiver whose item
/// is still out is kept.
pub proof fn law_each_answer_has_its_effect<T>(receivers: Seq<Receiver<T>>, replies: Seq<Reply<T>>)
    requires
        replies.len() <= receivers.len(),
        forall|i: int| 0 <= i < replies.len() ==> replied(None, #[trigger] receivers[i], replies[i]),
    ensures
        forall|i: int|
            0 <= i < replies.len() ==> {
                &&& match #[trigger] replies[i] {
                    Reply::Returned(item) => returned(replies).contains(item),
                    Reply::Waiting => kept(receivers, replies).contains(receivers[i]),
                    Reply::Lost => true,
                }
                &&& exists|handle: &mut Receiver<T>|
                    *handle == receivers[i] && #[trigger] call_ensures(
                        try_recv::<T>,
                        (handle,),
                        replies[i],
                    )
            },
{
    assert forall|i: int| 0 <= i < replies.len() implies {
        &&& match #[trigger] replies[i] {
            Reply::Returned(item) => returned(replies).contains(item),
            Reply::Waiting => kept(receivers, replies).contains(receivers[i]),
            Reply::Lost => true,
        }
        &&& exists|handle: &mut Receiver<T>|
            *handle == receivers[i] && #[trigger] call_ensures(
                try_recv::<T>,
                (handle,),
                replies[i],
            )
    } by {
        law_reply_is_an_answer(None, receivers[i], replies[i]);
        match replies[i] {
            Reply::Returned(item) => law_returned_items(replies, item),
            Reply::Waiting => law_waiting_receiver_stays(receivers, replies, i),
            Reply::Lost => {},
        }
    }
}

/// Each receiver that was asked in the task of `cx` has an answer that a poll of it with `cx` gave,
/// and the answer has its effect: an item that was handed out has come back, and a receiver whose
/// item is still out is kept.
pub proof fn law_each_poll_has_its_effect<'c, T>(
    cx: Context<'c>,
    receivers: Seq<Receiver<T>>,
    replies: Seq<Reply<T>>,
)
    requires
        replies.len() <= receivers.len(),
        forall|i: int|
            0 <= i < replies.len() ==> replied(Some(cx), #[trigger] receivers[i], replies[i]),
    ensures
        forall|i: int|
            0 <= i < replies.len() ==> {
                &&& match #[trigger] replies[i] {
                    Reply::Returned(item) => returned(replies).contains(item),
                    Reply::Waiting => kept(receivers, replies).contains(receivers[i]),
                    Reply::Lost => true,
                }
                &&& exists|handle: &mut Receiver<T>, task: &mut Context<'c>|
                    *handle == receivers[i] && *task == cx && #[trigger] call_ensures(
                        poll_recv::<T>,
                        (handle, task),
                        replies[i],
                    )
            },
{
    assert forall|i: int| 0 <= i < replies.len() implies {
        &&& match #[trigger] replies[i] {
            Reply::Returned(item) => returned(replies).contains(item),
            Reply::Waiting => kept(receivers, replies).contains(receivers[i]),
            Reply::Lost => true,
        }
        &&& exists|handle: &mut Receiver<T>, task: &mut Context<'c>|
            *handle == receivers[i] && *task == cx && #[trigger] call_ensures(
                poll_recv::<T>,
                (handle, task),
                replies[i],
            )
    } by {
        law_reply_is_an_answer(Some(cx), receivers[i], replies[i]);
        match replies[i] {
            Reply::Returned(item) => law_returned_items(replies, item),
            Reply::Waiting => law_waiting_receiver_stays(receivers, replies, i),
            Reply::Lost => {},
        }
    }
}

/// Each receiver that was asked has an answer of the channel, and the answer has its effect,
/// whether it was asked in a task or not.
pub proof fn law_each_reply_has_its_effect<'c, T>(
    cx: Option<Context<'c>>,
    receivers: Seq<Receiver<T>>,
    replies: Seq<Reply<T>>,
)
    requires
        replies.len() <= receivers.len(),
        forall|i: int| 0 <= i < replies.len() ==> replied(cx, #[trigger] receivers[i], replies[i]),
    ensures
        forall|i: int|
            0 <= i < replies.len() ==> {
                &&& match #[trigger] replies[i] {
                    Reply::Returned(item) => returned(replies).contains(item),
                    Reply::Waiting => kept(receivers, replies).contains(receivers[i]),
                    Reply::Lost => true,
                }
                &&& match cx {
                    Some(cx) => exists|handle: &mut Receiver<T>, task: &mut Context<'c>|
                        *handle == receivers[i] && *task == cx && #[trigger] call_ensures(
                            poll_recv::<T>,
                            (handle, task),
                            replies[i],
                        ),
                    None => exists|handle: &mut Receiver<T>|
                        *handle == receivers[i] && #[trigger] call_ensures(
                            try_recv::<T>,
                            (handle,),
                            replies[i],
                        ),
                }
            },
{
    assert forall|i: int| 0 <= i < replies.len() implies {
        &&& match #[trigger] replies[i] {
            Reply::Returned(item) => returned(replies).contains(item),
            Reply::Waiting => kept(receivers, replies).contains(receivers[i]),
            Reply::Lost => true,
        }
        &&& match cx {
            Some(cx) => exists|handle: &mut Receiver<T>, task: &mut Context<'c>|
                *handle == receivers[i] && *task == cx && #[trigger] call_ensures(
                    poll_recv::<T>,
                    (handle, task),
                    replies[i],
                ),
            None => exists|handle: &mut Receiver<T>|
                *handle == receivers[i] && #[trigger] call_ensures(
                    try_recv::<T>,
                    (handle,),
                    replies[i],
                ),
        }
    } by {
        law_reply_is_an_answer(cx, receivers[i], replies[i]);
        match replies[i] {
            Reply::Returned(item) => law_returned_items(replies, item),
            Reply::Waiting => law_waiting_receiver_stays(receivers, replies, i),
            Reply::Lost => {},
        }
    }
}

/// Where all receivers were asked, those that are kept are those that were told to wait: each of
/// them answered so, to `try_recv` or, in a task, to a poll with the context of that task.
pub proof fn law_kept_were_told_to_wait<'c, T>(
    cx: Option<Context<'c>>,
    receivers: Seq<Receiver<T>>,
    replies: Seq<Reply<T>>,
    k: int,
)
    requires
        all_asked(cx, receivers, replies),
        0 <= k < kept(receivers, replies).len(),
    ensures
        exists|i: int|
            0 <= i < receivers.len() && #[trigger] receivers[i] == kept(receivers, replies)[k]
                && replies[i] is Waiting,
        match cx {
            Some(cx) => exists|handle: &mut Receiver<T>, task: &mut Context<'c>|
                *handle == kept(receivers, replies)[k] && *task == cx && #[trigger] call_ensures(
                    poll_recv::<T>,
                    (handle, task),
                    Reply::Waiting,
                ),
            None => exists|handle: &mut Receiver<T>|
                *handle == kept(receivers, replies)[k] && #[trigger] call_ensures(
                    try_recv::<T>,
                    (handle,),
                    Reply::Waiting,
                ),
        },
{
    let i = lemma_waiting_index(receivers, replies, k);
    assert(receivers[i] == kept(receivers, replies)[k]);
    assert(replies[i] == Reply::<T>::Waiting);
    law_reply_is_an_answer(cx, receivers[i], replies[i]);
}

/// Finds the place at which a receiver that waits was asked.
proof fn lemma_waiting_index<T>(
    receivers: Seq<Receiver<T>>,
    replies: Seq<Reply<T>>,
    k: int,
) -> (i: int)
    requires
        replies.len() <= receivers.len(),
        0 <= k < waiting(receivers, replies).len(),
    ensures
        0 <= i < replies.len(),
        replies[i] is Waiting,
        receivers[i] == waiting(receivers, replies)[k],
    decreases replies.len(),
{
    let earlier = replies.drop_last();
    if k < waiting(receivers, earlier).len() {
        lemma_waiting_index(receivers, earlier, k)
    } else {
        replies.len() - 1
    }
}

/// Every answer is accounted for: its item came back, is still out or is lost.
pub proof fn law_replies_add_up<T>(receivers: Seq<Receiver<T>>, replies: Seq<Reply<T>>)
    ensures
        returned(replies).len() + waiting(receivers, replies).len() + lost(replies)
            == replies.len(),
    decreases replies.len(),
{
    if replies.len() > 0 {
        law_replies_add_up(receivers, replies.drop_last());
    }
}

/// Where no answer reports a loss, no item is lost.
pub proof fn lemma_none_lost<T>(replies: Seq<Reply<T>>)
    requires
        forall|i: int| 0 <= i < replies.len() ==> #[trigger] replies[i] !is Lost,
    ensures
        lost(replies) == 0,
    decreases replies.len(),
{
    if replies.len() > 0 {
        let earlier = replies.drop_last();
        assert forall|i: int| 0 <= i < earlier.len() implies #[trigger] earlier[i] !is Lost by {
            assert(earlier[i] == replies[i]);
        }
        lemma_none_lost(earlier);
    }
}

/// Where every receiver resolves to an item, no item is lost.
pub proof fn lemma_none_lost_if_all_return<'c, T>(
    cx: Option<Context<'c>>,
    receivers: Seq<Receiver<T>>,
    replies: Seq<Reply<T>>,
)
    requires
        all_made(receivers),
        all_asked(cx, receivers, replies),
        forall|i: int| 0 <= i < receivers.len() ==> (#[trigger] receivers[i])@ is Ok,
    ensures
        lost(replies) == 0,
{
    assert forall|i: int| 0 <= i < replies.len() implies #[trigger] replies[i] !is Lost by {
        law_reply_is_resolution(cx, receivers[i], replies[i]);
    }
    lemma_none_lost(replies);
}

/// The items that came back are those of the answers that hand one out.
pub proof fn law_returned_items<T>(replies: Seq<Reply<T>>, item: T)
    ensures
        returned(replies).contains(item) <==> exists|i: int|
            0 <= i < replies.len() && #[trigger] replies[i] == Reply::Returned(item),
    decreases replies.len(),
{
    if replies.len() > 0 {
        let earlier = replies.drop_last();
        law_returned_items(earlier, item);
        let last = replies.len() - 1;
        assert(forall|i: int| 0 <= i < last ==> earlier[i] == replies[i]);
        if returned(earlier).contains(item) {
            let k = returned(earlier).index_of(item);
            assert(returned(replies)[k] == item);
            let i = choose|i: int|
                0 <= i < earlier.len() && #[trigger] earlier[i] == Reply::Returned(item);
            assert(replies[i] == Reply::Returned(item));
        }
        if replies[last] == Reply::Returned(item) {
            assert(returned(replies).last() == item);
        }
        if returned(replies).contains(item) && !returned(earlier).contains(item) {
            let k = returned(replies).index_of(item);
            assert(k >= returned(earlier).len()) by {
                if k < returned(earlier).len() {
                    assert(returned(earlier)[k] == item);
                }
            }
        }
        if exists|i: int| 0 <= i < replies.len() && #[trigger] replies[i] == Reply::Returned(item) {
            let i = choose|i: int|
                0 <= i < replies.len() && #[trigger] replies[i] == Reply::Returned(item);
            if i < last {
                assert(earlier[i] == Reply::Returned(item));
            }
        }
    }
}

/// What comes back of two groups of receivers is what comes back of the first, and then of the
/// second.
proof fn lemma_returned_concat<T>(first: Seq<Reply<T>>, second: Seq<Reply<T>>)
    ensures
        returned(first + second) == returned(first) + returned(second),
    decreases second.len(),
{
    if second.len() == 0 {
        assert(first + second =~= first);
    } else {
        lemma_returned_concat(first, second.drop_last());
        assert((first + second).drop_last() =~= first + second.drop_last());
        assert((first + second).last() == second.last());
    }
    assert(returned(first + second) =~= returned(first) + returned(second));
}

/// What waits of two groups of receivers is what waits of the first, and then of the second.
proof fn lemma_waiting_concat<T>(
    receivers: Seq<Receiver<T>>,
    first: Seq<Reply<T>>,
    second: Seq<Reply<T>>,
)
    requires
        first.len() + second.len() <= receivers.len(),
    ensures
        waiting(receivers, first + second) == waiting(receivers, first) + waiting(
            receivers.skip(first.len() as int),
            second,
        ),
    decreases second.len(),
{
    if second.len() == 0 {
        assert(first + second =~= first);
    } else {
        lemma_waiting_concat(receivers, first, second.drop_last());
        assert((first + second).drop_last() =~= first + second.drop_last());
        assert((first + second).last() == second.last());
    }
    assert(waiting(receivers, first + second) =~= waiting(receivers, first) + waiting(
        receivers.skip(first.len() as int),
        second,
    ));
}

/// Each answer counts once, in its place: an item that came back is added once and its receiver
/// goes, a receiver whose item is still out is kept once, and a loss leaves neither.
pub proof fn law_each_reply_counts_once<T>(
    receivers: Seq<Receiver<T>>,
    replies: Seq<Reply<T>>,
    i: int,
)
    requires
        0 <= i < replies.len() <= receivers.len(),
    ensures
        returned(replies) == returned(replies.take(i)) + (match replies[i] {
            Reply::Returned(item) => seq![item],
            _ => Seq::empty(),
        }) + returned(replies.skip(i + 1)),
        kept(receivers, replies) == waiting(receivers, replies.take(i)) + (match replies[i] {
            Reply::Waiting => seq![receivers[i]],
            _ => Seq::empty(),
        }) + kept(receivers.skip(i + 1), replies.skip(i + 1)),
{
    let before = replies.take(i);
    let upto = replies.take(i + 1);
    let behind = replies.skip(i + 1);
    assert(upto.drop_last() =~= before);
    assert(upto + behind =~= replies);
    lemma_returned_concat(upto, behind);
    lemma_waiting_concat(receivers, upto, behind);
    assert(upto.last() == replies[i]);
    assert(receivers.skip(i + 1).skip(behind.len() as int) =~= receivers.skip(
        replies.len() as int,
    ));
    assert(returned(upto) =~= returned(before) + (match replies[i] {
        Reply::Returned(item) => seq![item],
        _ => Seq::empty(),
    }));
    assert(waiting(receivers, upto) =~= waiting(receivers, before) + (match replies[i] {
        Reply::Waiting => seq![receivers[i]],
        _ => Seq::empty(),
    }));
    assert(kept(receivers, replies) =~= waiting(receivers, upto) + kept(
        receivers.skip(i + 1),
        behind,
    ));
}

/// A receiver whose item is still out is kept.
pub proof fn law_waiting_receiver_stays<T>(
    receivers: Seq<Receiver<T>>,
    replies: Seq<Reply<T>>,
    i: int,
)
    requires
        0 <= i < replies.len() <= receivers.len(),
        replies[i] is Waiting,
    ensures
        kept(receivers, replies).contains(receivers[i]),
    decreases replies.len(),
{
    lemma_waiting_contains(receivers, replies, i);
    let k = waiting(receivers, replies).index_of(receivers[i]);
    assert(kept(receivers, replies)[k] == receivers[i]);
}

pub(crate) proof fn lemma_waiting_contains<T>(
    receivers: Seq<Receiver<T>>,
    replies: Seq<Reply<T>>,
    i: int,
)
    requires
        0 <= i < replies.len() <= receivers.len(),
        replies[i] is Waiting,
    ensures
        waiting(receivers, replies).contains(receivers[i]),
    decreases replies.len(),
{
    let earlier = replies.drop_last();
    if i == replies.len() - 1 {
        assert(waiting(receivers, replies).last() == receivers[i]);
    } else {
        lemma_waiting_contains(receivers, earlier, i);
        let k = waiting(receivers, earlier).index_of(receivers[i]);
        assert(waiting(receivers, replies)[k] == receivers[i]);
    }
}

/// Receivers that are as `channel` made them are so when they are kept.
pub proof fn lemma_kept_are_made<T>(receivers: Seq<Receiver<T>>, replies: Seq<Reply<T>>)
    requires
        all_made(receivers),
        replies.len() <= receivers.len(),
    ensures
        all_made(kept(receivers, replies)),
{
    lemma_waiting_are_made(receivers, replies);
}

proof fn lemma_waiting_are_made<T>(receivers: Seq<Receiver<T>>, replies: Seq<Reply<T>>)
    requires
        all_made(receivers),
        replies.len() <= receivers.len(),
    ensures
        all_made(waiting(receivers, replies)),
    decreases replies.len(),
{
    if replies.len() > 0 {
        lemma_waiting_are_made(receivers, replies.drop_last());
    }
}

/// A round in which every item is still out changes nothing.
pub proof fn law_quiet_round<T>(receivers: Seq<Receiver<T>>, replies: Seq<Reply<T>>)
    requires
        replies.len() <= receivers.len(),
        forall|i: int| 0 <= i < replies.len() ==> #[trigger] replies[i] is Waiting,
    ensures
        returned(replies) == Seq::<T>::empty(),
        kept(receivers, replies) == receivers,
    decreases replies.len(),
{
    if replies.len() > 0 {
        let earlier = replies.drop_last();
        assert forall|i: int| 0 <= i < earlier.len() implies #[trigger] earlier[i] is Waiting by {
            assert(earlier[i] == replies[i]);
        }
        law_quiet_round(receivers, earlier);
        let n = replies.len() as int;
        assert(replies[n - 1] is Waiting);
        assert(waiting(receivers, earlier) =~= receivers.take(n - 1)) by {
            assert(kept(receivers, earlier).take(n - 1) =~= receivers.take(n - 1));
            law_replies_add_up(receivers, earlier);
            lemma_none_lost(earlier);
            assert(kept(receivers, earlier).take(n - 1) =~= waiting(receivers, earlier));
        }
    }
    assert(kept(receivers, replies) =~= receivers);
}

} // verus!
