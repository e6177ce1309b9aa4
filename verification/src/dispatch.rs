use crate::wire::component::{ComponentValue, NetComponent};
use crate::world::EntityHandle;
use vstd::prelude::*;

verus! {

/// Why a message was dropped. A dropped message changes nothing and does not stop the
/// messages behind it.
#[derive(Clone, Copy, Debug, PartialEq, Eq, Structural)]
pub enum DispatchError {
    /// A component arrived for an authoritative id that no `NewEnt` has announced.
    UnknownId,
    /// A component arrived for an id whose local entity has died since it was bound.
    DeadEntity,
    /// A component arrived from an endpoint whose own entity cannot be resolved.
    UnknownTarget,
}

/// What became of one inbound message.
#[derive(Clone, Copy, Debug, PartialEq, Eq, Structural)]
pub enum Outcome {
    /// The world made `handle` and `key` now stands for it.
    Bound { key: u64, handle: EntityHandle },
    /// The world made `handle`, but it already belongs to another key: nothing was bound.
    /// A world never makes an entity twice, so this comes about only where a table was given
    /// a handle that its world has not handed out.
    Refused { key: u64, handle: EntityHandle },
    /// The message asked for nothing new: `key` is bound already.
    Ignored { key: u64 },
    /// The message's component was scheduled to be written to `target`.
    Scheduled { key: u64, target: EntityHandle },
    /// The message was dropped and should be reported.
    Dropped { key: u64, error: DispatchError },
}

/// One component value waiting to be written to one entity.
#[derive(Clone, Debug, PartialEq, Eq)]
pub struct DeferredWrite {
    pub target: EntityHandle,
    pub component: NetComponent,
}

impl View for DeferredWrite {
    type V = (EntityHandle, ComponentValue);

    open spec fn view(&self) -> (EntityHandle, ComponentValue) {
        (self.target, self.component@)
    }
}

/// Component writes that were scheduled while messages were dispatched, to be applied to the
/// world at the next tick boundary in the order in which they were scheduled.
pub struct DeferredWrites {
    pending: Vec<DeferredWrite>,
}

impl View for DeferredWrites {
    type V = Seq<(EntityHandle, ComponentValue)>;

    closed spec fn view(&self) -> Seq<(EntityHandle, ComponentValue)> {
        self.pending@.map_values(|w: DeferredWrite| w@)
    }
}

impl DeferredWrites {
    pub fn new() -> (writes: Self)
        ensures
            writes@ == Seq::<(EntityHandle, ComponentValue)>::empty(),
    {
        DeferredWrites { pending: Vec::new() }
    }

    pub fn len(&self) -> (n: usize)
        ensures
            n == self@.len(),
    {
        self.pending.len()
    }

    /// Schedules `component` to be written to `target` after everything scheduled so far.
    pub fn insert(&mut self, target: EntityHandle, component: NetComponent)
        ensures
            final(self)@ == old(self)@.push((target, component@)),
    {
        self.pending.push(DeferredWrite { target, component });
        proof {
            assert(self.pending@.map_values(|w: DeferredWrite| w@) =~= old(
                self,
            ).pending@.map_values(|w: DeferredWrite| w@).push((target, component@)));
        }
    }

    /// Hands over everything scheduled, oldest first, and leaves nothing pending.
    pub fn take(&mut self) -> (writes: Vec<DeferredWrite>)
        ensures
            final(self)@.len() == 0,
            writes@.map_values(|w: DeferredWrite| w@) == old(self)@,
    {
        let mut taken: Vec<DeferredWrite> = Vec::new();
        std::mem::swap(&mut self.pending, &mut taken);
        taken
    }
}

impl NetComponent {
    /// Schedules this component to be written to `ent`.
    pub fn insert(self, ent: EntityHandle, lu: &mut DeferredWrites)
        ensures
            final(lu)@ == old(lu)@.push((ent, self@)),
    {
        lu.insert(ent, self)
    }
}

impl Default for DeferredWrites {
    fn default() -> (writes: Self)
        ensures
            writes@ == Seq::<(EntityHandle, ComponentValue)>::empty(),
    {
        DeferredWrites::new()
    }
}

} // verus!
