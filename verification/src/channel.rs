//! The one-shot channels through which borrowed items come back.
//!
//! `rx@` is what the receiver `rx` resolves to: the value it yields when it is awaited. It is fixed
//! but not known in advance, and says nothing of when the receiver resolves.

use futures_channel::oneshot::{channel, Canceled, Receiver, Sender};
use futures_util::FutureExt;
use std::task::{Context, Poll};
use vstd::future::FutureAdditionalSpecFns;
use vstd::prelude::*;

verus! {

/// The receiving end of a one-shot channel.
#[verifier::external_type_specification]
#[verifier::external_body]
#[verifier::reject_recursive_types(T)]
pub struct ExReceiver<T>(Receiver<T>);

/// The sending end of a one-shot channel.
#[verifier::external_type_specification]
#[verifier::external_body]
#[verifier::reject_recursive_types(T)]
pub struct ExSender<T>(Sender<T>);

/// What a receiver yields when its sender went away without sending.
#[verifier::external_type_specification]
#[verifier::external_body]
pub struct ExCanceled(Canceled);

/// The task context that a poll is made in.
#[verifier::external_type_specification]
#[verifier::external_body]
pub struct ExContext<'a>(Context<'a>);

/// What a receiver answers when it is asked for its item.
#[derive(Debug, PartialEq, Eq)]
pub enum Reply<T> {
    /// The item has come back.
    Returned(T),
    /// The item is still out.
    Waiting,
    /// The sender went away without sending: the item will never come back.
    Lost,
}

/// The report that an item on loan will never come back.
#[derive(Clone, Copy, Debug, PartialEq, Eq)]
pub struct ItemLost;

/// Whether a receiver that resolves to `resolution` can answer `reply`: an item that it hands out
/// is the one it resolves to, and it reports a loss only if it resolves to no item.
pub open spec fn answers<T>(resolution: Result<T, Canceled>, reply: Reply<T>) -> bool {
    match reply {
        Reply::Returned(item) => resolution matches Ok(sent) && sent == item,
        Reply::Waiting => true,
        Reply::Lost => resolution is Err,
    }
}

/// Whether `tx` and `rx` are the two ends of one channel, as `channel` hands them out.
pub open spec fn paired<T>(tx: Sender<T>, rx: Receiver<T>) -> bool {
    call_ensures(channel::<T>, (), (tx, rx))
}

/// Whether `rx` is as `channel` handed it out. A receiver that was closed is not.
pub open spec fn made<T>(rx: Receiver<T>) -> bool {
    exists|tx: Sender<T>| #[trigger] paired(tx, rx)
}

/// Whether all of `receivers` are as `channel` handed them out.
pub open spec fn all_made<T>(receivers: Seq<Receiver<T>>) -> bool {
    forall|i: int| 0 <= i < receivers.len() ==> made(#[trigger] receivers[i])
}

/// Whether `outcome` is what sending `item` through `tx` came to.
pub open spec fn sent<T>(tx: Sender<T>, item: T, outcome: Result<(), T>) -> bool {
    call_ensures(send::<T>, (tx, item), outcome)
}

/// Whether `reply` is what `rx` answered when it was asked outside of a task.
pub open spec fn tried<T>(rx: Receiver<T>, reply: Reply<T>) -> bool {
    exists|handle: &mut Receiver<T>|
        *handle == rx && #[trigger] call_ensures(try_recv::<T>, (handle,), reply)
}

/// Whether `reply` is what `rx` answered when it was polled in the task of `cx`.
pub open spec fn polled<'c, T>(rx: Receiver<T>, cx: Context<'c>, reply: Reply<T>) -> bool {
    exists|handle: &mut Receiver<T>, task: &mut Context<'c>|
        *handle == rx && *task == cx && #[trigger] call_ensures(
            poll_recv::<T>,
            (handle, task),
            reply,
        )
}

/// Whether `reply` is what `rx` answered when it was asked, in the task of `cx` if there is one.
pub open spec fn replied<'c, T>(
    cx: Option<Context<'c>>,
    rx: Receiver<T>,
    reply: Reply<T>,
) -> bool {
    match cx {
        Some(cx) => polled(rx, cx, reply),
        None => tried(rx, reply),
    }
}

/// `futures_channel::oneshot::channel` makes the two ends of a new channel. Nothing is claimed of
/// them beyond that such a pair can come from it.
pub assume_specification<T>[ futures_channel::oneshot::channel::<T> ]() -> (ends: (Sender<T>, Receiver<T>));

/// `futures_channel::oneshot::Sender::send` hands `item` to the other end. Where it reports
/// success, the receiver made with this sender resolves to `item`; where it fails, it gives `item`
/// back.
///
/// It has no panicking path of its own; the wakers and destructors that it runs are taken not to
/// unwind either. When the receiver sees the item is not stated.
#[verifier::external_body]
pub fn send<T>(tx: Sender<T>, item: T) -> (outcome: Result<(), T>)
    ensures
        outcome matches Err(back) ==> back == item,
        outcome is Ok ==> forall|rx: Receiver<T>| #[trigger]
            paired(tx, rx) ==> answers(rx@, Reply::Returned(item)),
    opens_invariants none
    no_unwind
{
    tx.send(item)
}

/// `futures_channel::oneshot::Receiver::try_recv` asks for the item without waiting. An item that
/// it yields is the one the receiver resolves to; it fails only if the receiver resolves to no
/// item; and where it yields no item the receiver stays as it was. Which of the three it is depends
/// on when the other end acts, so it is not stated.
#[verifier::external_body]
pub fn try_recv<T>(rx: &mut Receiver<T>) -> (reply: Reply<T>)
    ensures
        made(*old(rx)) || reply !is Lost ==> answers((*old(rx))@, reply),
        reply !is Returned ==> *final(rx) == *old(rx),
{
    match rx.try_recv() {
        Ok(Some(item)) => Reply::Returned(item),
        Ok(None) => Reply::Waiting,
        Err(_) => Reply::Lost,
    }
}

/// `futures_util::FutureExt::poll_unpin` on a receiver asks for the item and, where there is no
/// answer yet, leaves the waker of `cx` to be woken by the sender. The answer is bound as that of
/// `try_recv`, and `cx` is only read. That the waker is left is not stated.
#[verifier::external_body]
pub fn poll_recv<T>(rx: &mut Receiver<T>, cx: &mut Context<'_>) -> (reply: Reply<T>)
    ensures
        made(*old(rx)) || reply !is Lost ==> answers((*old(rx))@, reply),
        reply !is Returned ==> *final(rx) == *old(rx),
        *final(cx) == *old(cx),
{
    match rx.poll_unpin(cx) {
        Poll::Ready(Ok(item)) => Reply::Returned(item),
        Poll::Ready(Err(_)) => Reply::Lost,
        Poll::Pending => Reply::Waiting,
    }
}

/// Sends `item` through `tx`. Where that succeeds, the receiver made with `tx` resolves to `item`;
/// where it fails, `item` is given back.
pub fn hand_back<T>(tx: Sender<T>, item: T) -> (outcome: Result<(), T>)
    ensures
        sent(tx, item, outcome),
        call_ensures(send::<T>, (tx, item), outcome),
        outcome is Ok ==> forall|rx: Receiver<T>| #[trigger]
            paired(tx, rx) ==> answers(rx@, Reply::Returned(item)),
        outcome matches Err(back) ==> back == item,
    opens_invariants none
    no_unwind
{
    send(tx, item)
}

/// Asks `rx` for its item, outside of a task. Where it yields none, it is left as it was.
pub fn ask<T>(rx: &mut Receiver<T>) -> (reply: Reply<T>)
    ensures
        tried(*old(rx), reply),
        exists|handle: &mut Receiver<T>|
            *handle == *old(rx) && #[trigger] call_ensures(try_recv::<T>, (handle,), reply),
        reply !is Returned ==> *final(rx) == *old(rx),
{
    try_recv(rx)
}

/// Asks `rx` for its item, in the task of `cx`. Where it yields none, it is left as it was.
pub fn ask_in_task<T>(rx: &mut Receiver<T>, cx: &mut Context<'_>) -> (reply: Reply<T>)
    ensures
        polled(*old(rx), *old(cx), reply),
        exists|handle: &mut Receiver<T>, task: &mut Context<'_>|
            *handle == *old(rx) && *task == *old(cx) && #[trigger] call_ensures(
                poll_recv::<T>,
                (handle, task),
                reply,
            ),
        reply !is Returned ==> *final(rx) == *old(rx),
        *final(cx) == *old(cx),
{
    poll_recv(rx, cx)
}

/// The two ends of one channel come out of one call of `channel`.
pub proof fn law_pair_is_one_channel<T>(tx: Sender<T>, rx: Receiver<T>)
    ensures
        paired(tx, rx) <==> call_ensures(channel::<T>, (), (tx, rx)),
        paired(tx, rx) ==> made(rx),
        made(rx) ==> exists|other: Sender<T>| #[trigger]
            call_ensures(channel::<T>, (), (other, rx)),
{
}

/// What is said to be sent was handed to `send`, and the outcome is what `send` gave.
pub proof fn law_sent_is_a_send<T>(tx: Sender<T>, item: T, outcome: Result<(), T>)
    requires
        sent(tx, item, outcome),
    ensures
        call_ensures(send::<T>, (tx, item), outcome),
{
}

/// Handing an item back is sending it: a failure is reported only where `send` itself failed.
pub proof fn law_handing_back_is_a_send<T>(tx: Sender<T>, item: T, outcome: Result<(), T>)
    requires
        call_ensures(hand_back::<T>, (tx, item), outcome),
    ensures
        call_ensures(send::<T>, (tx, item), outcome),
{
}

/// What a receiver is said to have replied is what `try_recv` gave for that very receiver or, in a
/// task, what a poll of it with the context of that task gave.
pub proof fn law_reply_is_an_answer<'c, T>(
    cx: Option<Context<'c>>,
    rx: Receiver<T>,
    reply: Reply<T>,
)
    requires
        replied(cx, rx, reply),
    ensures
        match cx {
            Some(cx) => exists|handle: &mut Receiver<T>, task: &mut Context<'c>|
                *handle == rx && *task == cx && #[trigger] call_ensures(
                    poll_recv::<T>,
                    (handle, task),
                    reply,
                ),
            None => exists|handle: &mut Receiver<T>|
                *handle == rx && #[trigger] call_ensures(try_recv::<T>, (handle,), reply),
        },
{
}

/// Asking a receiver is asking the channel: the answer is one that `try_recv` gave for it.
pub proof fn law_asking_is_trying<T>(rx: &mut Receiver<T>, reply: Reply<T>)
    requires
        call_ensures(ask::<T>, (rx,), reply),
    ensures
        exists|handle: &mut Receiver<T>|
            *handle == *old(rx) && #[trigger] call_ensures(try_recv::<T>, (handle,), reply),
{
}

/// Asking a receiver in a task is polling it with the context of that task.
pub proof fn law_asking_in_task_is_polling<'c, T>(
    rx: &mut Receiver<T>,
    cx: &mut Context<'c>,
    reply: Reply<T>,
)
    requires
        call_ensures(ask_in_task::<T>, (rx, cx), reply),
    ensures
        exists|handle: &mut Receiver<T>, task: &mut Context<'c>|
            *handle == *old(rx) && *task == *old(cx) && #[trigger] call_ensures(
                poll_recv::<T>,
                (handle, task),
                reply,
            ),
{
}

/// A receiver that resolves to an item can answer with that item, and never with another or with a
/// loss; one that resolves to none never answers with an item.
pub proof fn law_answers<T>(resolution: Result<T, Canceled>, reply: Reply<T>)
    ensures
        answers(resolution, reply) <==> (reply is Returned ==> resolution is Ok && resolution->Ok_0
            == reply->Returned_0) && (reply is Lost ==> resolution is Err),
{
}

/// A receiver hands out the item that it resolves to and no other, and if it is as `channel` made
/// it it reports a loss only if it resolves to none.
pub proof fn law_reply_is_resolution<'c, T>(
    cx: Option<Context<'c>>,
    rx: Receiver<T>,
    reply: Reply<T>,
)
    requires
        made(rx) || reply !is Lost,
        replied(cx, rx, reply),
    ensures
        answers(rx@, reply),
{
}

/// What was sent is what comes back: a receiver as `channel` made it that resolves to `item`, as
/// one does whose sender has sent `item`, never reports a loss, and `item` is the one item it can
/// hand out.
pub proof fn law_sent_item_comes_back<'c, T>(
    cx: Option<Context<'c>>,
    rx: Receiver<T>,
    item: T,
    reply: Reply<T>,
)
    requires
        made(rx),
        answers(rx@, Reply::Returned(item)),
        replied(cx, rx, reply),
    ensures
        reply is Waiting || reply == Reply::Returned(item),
{
    law_reply_is_resolution(cx, rx, reply);
}

} // verus!
