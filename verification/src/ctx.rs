//! Causal contexts: the clocks a caller reads from a sequence and hands
//! back when building insert and delete operations.

use vstd::prelude::*;

use crate::vclock::{counter_of, Actor, Counter, Dot, VClock};

verus! {

/// The causal context returned by read-style operations: the clocks to
/// build add and remove contexts from, and the value that was read.
#[derive(Debug)]
pub struct ReadCtx<T, A: Actor> {
    pub add_clock: VClock<A>,
    pub rm_clock: VClock<A>,
    pub val: T,
}

/// The causal context of an insertion: a clock already advanced by the
/// acting replica's next counter, and the dot of that advance.
#[derive(Debug, Clone)]
pub struct AddCtx<A: Actor> {
    pub clock: VClock<A>,
    pub dot: Dot<A>,
}

/// The causal context of a removal: the clock that was read.
#[derive(Debug, Clone)]
pub struct RmCtx<A: Actor> {
    pub clock: VClock<A>,
}

impl<T, A: Actor> ReadCtx<T, A> {
    /// Derive the context for an insertion by this actor: the read clock
    /// advanced by the actor's next counter.
    pub fn derive_add_ctx(self, actor: A) -> (r: AddCtx<A>)
        requires
            counter_of(self.add_clock@, actor@) < Counter::MAX,
        ensures
            r.clock@ == self.add_clock@.insert(
                actor@,
                (counter_of(self.add_clock@, actor@) + 1) as Counter,
            ),
            r.dot.actor@ == actor@,
            r.dot.counter == counter_of(self.add_clock@, actor@) + 1,
    {
        let mut clock = self.add_clock;
        let dot_actor = actor.clone_actor();
        let counter = clock.increment(actor);
        AddCtx { clock, dot: Dot { actor: dot_actor, counter } }
    }

    /// Derive the context for a removal: the clock as read.
    pub fn derive_rm_ctx(self) -> (r: RmCtx<A>)
        ensures
            r.clock@ == self.rm_clock@,
    {
        RmCtx { clock: self.rm_clock }
    }
}

} // verus!
