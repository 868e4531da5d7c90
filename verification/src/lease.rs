//! A message on loan, bound to the channel end through which it travels back.

use crate::channel::{answers, hand_back, paired, send, sent, Reply};
use futures_channel::oneshot::{Receiver, Sender};
use vstd::future::FutureAdditionalSpecFns;
use vstd::prelude::*;

verus! {

/// A message together with the sender that takes it back.
#[verifier::reject_recursive_types(M)]
pub struct Loan<M> {
    /// The message that is out.
    pub message: M,
    /// The channel end that it goes back through.
    pub sender: Sender<M>,
}

/// A loan that is sent back when it is dropped.
#[verifier::reject_recursive_types(M)]
pub struct Lease<M> {
    slot: Option<Loan<M>>,
}

impl<M> View for Lease<M> {
    type V = Option<Loan<M>>;

    /// The loan, or nothing once it has been sent back.
    closed spec fn view(&self) -> Option<Loan<M>> {
        self.slot
    }
}

impl<M> Lease<M> {
    /// Binds `message` to `sender`.
    pub fn new(message: M, sender: Sender<M>) -> (lease: Self)
        ensures
            lease@ == Some(Loan { message, sender }),
    {
        Lease { slot: Some(Loan { message, sender }) }
    }

    /// The message that is out.
    pub fn message(&self) -> (message: &M)
        requires
            self@ is Some,
        ensures
            *message == self@->Some_0.message,
    {
        match &self.slot {
            Some(loan) => &loan.message,
            None => vstd::pervasive::unreached(),
        }
    }

    /// The message that is out, to be changed in place.
    pub fn message_mut(&mut self) -> (message: &mut M)
        requires
            old(self)@ is Some,
        ensures
            *message == old(self)@->Some_0.message,
            final(self)@ == Some(
                Loan { message: *final(message), sender: old(self)@->Some_0.sender },
            ),
        opens_invariants none
        no_unwind
    {
        match &mut self.slot {
            Some(loan) => &mut loan.message,
            None => vstd::pervasive::unreached(),
        }
    }

    /// Sends the message back through its own sender, and leaves nothing behind. Says how the
    /// sending went, or `None` if the message had gone back before: on success the receiver made
    /// with that sender resolves to the message, on failure the message is handed out.
    pub fn release(&mut self) -> (outcome: Option<Result<(), M>>)
        ensures
            final(self)@ is None,
            match old(self)@ {
                Some(loan) => outcome matches Some(went) && sent(loan.sender, loan.message, went)
                    && call_ensures(send::<M>, (loan.sender, loan.message), went),
                None => outcome is None,
            },
            outcome matches Some(Ok(_)) ==> forall|rx: Receiver<M>| #[trigger]
                paired(old(self)@->Some_0.sender, rx) ==> answers(
                    rx@,
                    Reply::Returned(old(self)@->Some_0.message),
                ),
            outcome matches Some(Err(back)) ==> back == old(self)@->Some_0.message,
        opens_invariants none
        no_unwind
    {
        let mut slot: Option<Loan<M>> = None;
        std::mem::swap(&mut slot, &mut self.slot);
        match slot {
            Some(loan) => Some(hand_back(loan.sender, loan.message)),
            None => None,
        }
    }
}

impl<M> Drop for Lease<M> {
    /// Sends the message, as it is now, back through its own sender. Where that succeeds the
    /// receiver made with the sender resolves to the message; if the pool is gone, the message is
    /// dropped with the lease.
    fn drop(&mut self)
        ensures
            final(self)@ is None,
            old(self)@ matches Some(loan) ==> exists|went: Result<(), M>|
                {
                    &&& #[trigger] call_ensures(send::<M>, (loan.sender, loan.message), went)
                    &&& sent(loan.sender, loan.message, went)
                    &&& went is Ok ==> forall|rx: Receiver<M>| #[trigger]
                        paired(loan.sender, rx) ==> answers(rx@, Reply::Returned(loan.message))
                },
        opens_invariants none
        no_unwind
    {
        let _ = self.release();
    }
}

/// What a lease is said to hold is what is in its slot.
proof fn law_lease_is_its_slot<M>(lease: Lease<M>)
    ensures
        lease@ == lease.slot,
{
}

} // verus!
