use crate::payload::Payload;
use vstd::prelude::*;

verus! {

/// Where a handle stands in the protocol, with what it has to remember from
/// one step to the next.
pub enum Phase<T> {
    /// No operation is in flight.
    Idle,
    /// The handle swapped `mine` in as the new tail.
    Registered { mine: usize, request: Payload<T>, ticket: Ghost<nat> },
    /// The handle found its predecessor waiting.
    Staged { mine: usize, request: Payload<T>, ticket: Ghost<nat> },
    /// The handle published its request and spins on its predecessor.
    Waiting { mine: usize, request: Payload<T>, ticket: Ghost<nat> },
    /// The handle is the combiner and has its own request to apply.
    Elected { mine: usize, request: Payload<T> },
    /// The handle is the combiner, stands at `current` and has served `count`
    /// others.
    Helping { current: usize, count: usize, result: Payload<T> },
}

impl<T> Clone for Phase<T> {
    fn clone(&self) -> (copy: Self)
        ensures
            copy == *self,
    {
        *self
    }
}

impl<T> Copy for Phase<T> {

}

impl<T> Phase<T> {
    /// The place in the order of registration, for a handle that stands in
    /// line or stood there until it was served.
    pub open spec fn ticket(self) -> nat {
        match self {
            Phase::Registered { ticket, .. } => ticket@,
            Phase::Staged { ticket, .. } => ticket@,
            Phase::Waiting { ticket, .. } => ticket@,
            _ => 0,
        }
    }

    /// The node that the handle swapped in.
    pub open spec fn mine(self) -> usize {
        match self {
            Phase::Registered { mine, .. } => mine,
            Phase::Staged { mine, .. } => mine,
            Phase::Waiting { mine, .. } => mine,
            Phase::Elected { mine, .. } => mine,
            _ => 0,
        }
    }

    /// The request of the operation, or its result once the handle applied
    /// it.
    pub open spec fn payload(self) -> Payload<T> {
        match self {
            Phase::Registered { request, .. } => request,
            Phase::Staged { request, .. } => request,
            Phase::Waiting { request, .. } => request,
            Phase::Elected { request, .. } => request,
            Phase::Helping { result, .. } => result,
            Phase::Idle => arbitrary(),
        }
    }

    /// Whether the handle registered and was not elected since.
    pub open spec fn queued(self) -> bool {
        self is Registered || self is Staged || self is Waiting
    }

    /// Whether the handle is the combiner.
    pub open spec fn combining(self) -> bool {
        self is Elected || self is Helping
    }
}

/// The cursor of one thread into one combining object: the combining node
/// that the thread holds, and the phase of its operation in flight.
///
/// While the handle is idle, `next` is its spare node, which it swaps in with
/// its next registration. From then on `next` is the node that was the tail
/// before: the registration's predecessor.
pub struct SynchHandle<T> {
    /// The identity under which the combining object knows this handle.
    pub id: usize,
    /// The combining node that the handle holds.
    pub next: usize,
    /// The phase of the operation in flight.
    pub phase: Phase<T>,
}

impl<T> Clone for SynchHandle<T> {
    fn clone(&self) -> (copy: Self)
        ensures
            copy == *self,
    {
        *self
    }
}

impl<T> Copy for SynchHandle<T> {

}

impl<T> SynchHandle<T> {
    /// Whether no operation is in flight.
    pub fn is_idle(&self) -> (idle: bool)
        ensures
            idle == (self.phase is Idle),
    {
        match self.phase {
            Phase::Idle => true,
            _ => false,
        }
    }
}

} // verus!
