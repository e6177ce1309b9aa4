use crate::world::{is_alive, live_in, slot_generations, slot_readable, EntityHandle};
use specs::world::EntitiesRes;
use std::collections::HashMap;
use vstd::prelude::*;
use vstd::std_specs::hash::*;

verus! {

broadcast use group_hash_axioms;

/// Why a binding was refused.
#[derive(Clone, Copy, Debug, PartialEq, Eq, Structural)]
pub enum BindError {
    /// The key already has a handle.
    KeyBound,
    /// The handle already belongs to another key.
    HandleBound,
}

/// No two keys of `m` share a handle.
pub open spec fn injective(m: Map<u64, EntityHandle>) -> bool {
    forall|a: u64, b: u64|
        m.contains_key(a) && m.contains_key(b) && m[a] == m[b] ==> a == b
}

/// Some key of `m` maps to `handle`.
pub open spec fn handle_bound(m: Map<u64, EntityHandle>, handle: EntityHandle) -> bool {
    exists|k: u64| #[trigger] m.contains_key(k) && m[k] == handle
}

/// Some key of `m` other than `key` maps to `handle`.
pub open spec fn held_by_other(m: Map<u64, EntityHandle>, key: u64, handle: EntityHandle) -> bool {
    exists|k: u64| k != key && #[trigger] m.contains_key(k) && m[k] == handle
}

/// What `key` stands for in `m`, if the entity it is bound to still lives in `world`.
pub open spec fn resolved(m: Map<u64, EntityHandle>, world: Map<u32, i32>, key: u64) -> Option<
    EntityHandle,
> {
    if m.contains_key(key) && live_in(world, m[key]) {
        Some(m[key])
    } else {
        None
    }
}

/// Whether the world can tell the generation of the slot of every handle that `m` holds.
pub open spec fn readable_in(m: Map<u64, EntityHandle>, ents: EntitiesRes) -> bool {
    forall|k: u64| #[trigger] m.contains_key(k) ==> slot_readable(ents, m[k])
}

/// The number under which a handle is filed in the reverse direction of a table.
pub open spec fn handle_key(handle: EntityHandle) -> u64 {
    (handle.index as int * 0x1_0000_0000 + (handle.generation as int + 0x8000_0000)) as u64
}

proof fn lemma_handle_key_injective(a: EntityHandle, b: EntityHandle)
    requires
        handle_key(a) == handle_key(b),
    ensures
        a == b,
{
}

fn key_of(handle: EntityHandle) -> (k: u64)
    ensures
        k == handle_key(handle),
{
    (handle.index as u64) * 0x1_0000_0000u64 + ((handle.generation as i64 + 0x8000_0000i64) as u64)
}

/// A two-way mapping between connection-scoped keys and entity handles. Each key has at most
/// one handle and each handle at most one key.
pub struct IdentityTable {
    forward: HashMap<u64, EntityHandle>,
    reverse: HashMap<u64, u64>,
}

impl View for IdentityTable {
    type V = Map<u64, EntityHandle>;

    closed spec fn view(&self) -> Map<u64, EntityHandle> {
        self.forward@
    }
}

impl IdentityTable {
    /// The two directions of the table agree with each other.
    pub closed spec fn wf(&self) -> bool {
        &&& forall|k: u64| #[trigger]
            self.forward@.contains_key(k) ==> self.reverse@.contains_key(
                handle_key(self.forward@[k]),
            ) && self.reverse@[handle_key(self.forward@[k])] == k
        &&& forall|p: u64| #[trigger]
            self.reverse@.contains_key(p) ==> self.forward@.contains_key(self.reverse@[p])
                && handle_key(self.forward@[self.reverse@[p]]) == p
    }

    /// A well-formed table never gives one handle to two keys.
    pub proof fn lemma_wf_injective(&self)
        requires
            self.wf(),
        ensures
            injective(self@),
            self@.dom().finite(),
    {
    }

    pub fn new() -> (table: Self)
        ensures
            table.wf(),
            table@ == Map::<u64, EntityHandle>::empty(),
    {
        IdentityTable { forward: HashMap::new(), reverse: HashMap::new() }
    }

    pub fn is_bound(&self, key: u64) -> (bound: bool)
        ensures
            bound == self@.contains_key(key),
    {
        self.forward.contains_key(&key)
    }

    /// The handle that `key` is bound to, whether or not its entity still lives.
    pub fn lookup(&self, key: u64) -> (handle: Option<EntityHandle>)
        ensures
            handle == if self@.contains_key(key) {
                Some(self@[key])
            } else {
                None
            },
    {
        match self.forward.get(&key) {
            Some(h) => Some(*h),
            None => None,
        }
    }

    /// The key that `handle` is bound to.
    pub fn holder(&self, handle: EntityHandle) -> (key: Option<u64>)
        requires
            self.wf(),
        ensures
            match key {
                Some(k) => self@.contains_key(k) && self@[k] == handle,
                None => !handle_bound(self@, handle),
            },
    {
        let p: u64 = key_of(handle);
        match self.reverse.get(&p) {
            Some(k) => {
                proof {
                    assert(self.reverse@.contains_key(p));
                    lemma_handle_key_injective(self.forward@[*k], handle);
                }
                Some(*k)
            },
            None => {
                proof {
                    if handle_bound(self@, handle) {
                        let k = choose|k: u64|
                            #[trigger] self@.contains_key(k) && self@[k] == handle;
                        assert(self.forward@.contains_key(k));
                    }
                }
                None
            },
        }
    }

    /// The handle that `key` is bound to, if its entity is alive in `ents` at this moment.
    /// If `key` is bound, the slot of its handle must be one whose generation the world can
    /// tell.
    pub fn resolve(&self, key: u64, ents: &EntitiesRes) -> (handle: Option<EntityHandle>)
        requires
            self@.contains_key(key) ==> slot_readable(*ents, self@[key]),
        ensures
            handle == resolved(self@, slot_generations(*ents), key),
    {
        match self.forward.get(&key) {
            Some(h) => {
                if is_alive(ents, *h) {
                    Some(*h)
                } else {
                    None
                }
            },
            None => None,
        }
    }

    /// Binds a key that has no handle yet to a handle that has no key yet.
    pub fn bind(&mut self, key: u64, handle: EntityHandle) -> (outcome: Result<(), BindError>)
        requires
            old(self).wf(),
        ensures
            final(self).wf(),
            match outcome {
                Ok(()) => !old(self)@.contains_key(key) && !handle_bound(old(self)@, handle)
                    && final(self)@ == old(self)@.insert(key, handle),
                Err(BindError::KeyBound) => old(self)@.contains_key(key) && final(self)@
                    == old(self)@,
                Err(BindError::HandleBound) => !old(self)@.contains_key(key) && handle_bound(
                    old(self)@,
                    handle,
                ) && final(self)@ == old(self)@,
            },
    {
        if self.forward.contains_key(&key) {
            return Err(BindError::KeyBound);
        }
        match self.holder(handle) {
            Some(_) => Err(BindError::HandleBound),
            None => {
                let p: u64 = key_of(handle);
                proof {
                    if self.reverse@.contains_key(p) {
                        assert(self.forward@.contains_key(self.reverse@[p]));
                        lemma_handle_key_injective(self.forward@[self.reverse@[p]], handle);
                    }
                }
                self.forward.insert(key, handle);
                self.reverse.insert(p, key);
                proof {
                    assert forall|k: u64| #[trigger]
                        self.forward@.contains_key(k) implies self.reverse@.contains_key(
                        handle_key(self.forward@[k]),
                    ) && self.reverse@[handle_key(self.forward@[k])] == k by {
                        if k != key {
                            assert(old(self).forward@.contains_key(k));
                            if handle_key(old(self).forward@[k]) == p {
                                lemma_handle_key_injective(old(self).forward@[k], handle);
                            }
                        }
                    }
                    assert forall|q: u64| #[trigger]
                        self.reverse@.contains_key(q) implies self.forward@.contains_key(
                        self.reverse@[q],
                    ) && handle_key(self.forward@[self.reverse@[q]]) == q by {
                        if q != p {
                            assert(old(self).reverse@.contains_key(q));
                        }
                    }
                }
                Ok(())
            },
        }
    }

    /// Binds a key to a handle that no other key has, replacing whatever the key had before.
    pub fn bind_overwrite(&mut self, key: u64, handle: EntityHandle) -> (outcome: Result<
        (),
        BindError,
    >)
        requires
            old(self).wf(),
        ensures
            final(self).wf(),
            match outcome {
                Ok(()) => !held_by_other(old(self)@, key, handle) && final(self)@
                    == old(self)@.insert(key, handle),
                Err(BindError::HandleBound) => held_by_other(old(self)@, key, handle)
                    && final(self)@ == old(self)@,
                Err(BindError::KeyBound) => false,
            },
    {
        match self.holder(handle) {
            Some(k) => {
                if k != key {
                    return Err(BindError::HandleBound);
                }
                proof {
                    self.lemma_wf_injective();
                    assert(self@ =~= self@.insert(key, handle));
                    if held_by_other(self@, key, handle) {
                        let o = choose|o: u64|
                            o != key && #[trigger] self@.contains_key(o) && self@[o] == handle;
                        assert(false);
                    }
                }
                Ok(())
            },
            None => {
                self.unbind(key);
                proof {
                    if handle_bound(self@, handle) {
                        let o = choose|o: u64|
                            #[trigger] self@.contains_key(o) && self@[o] == handle;
                        assert(old(self)@.contains_key(o));
                    }
                    if held_by_other(old(self)@, key, handle) {
                        let o = choose|o: u64|
                            o != key && #[trigger] old(self)@.contains_key(o) && old(self)@[o]
                                == handle;
                        assert(false);
                    }
                }
                let ghost mid = self@;
                let r = self.bind(key, handle);
                proof {
                    assert(mid.insert(key, handle) =~= old(self)@.insert(key, handle));
                }
                r
            },
        }
    }

    /// Forgets the binding that refers to `handle`, as is due when its entity is destroyed,
    /// and returns the key that was bound to it.
    pub fn release(&mut self, handle: EntityHandle) -> (key: Option<u64>)
        requires
            old(self).wf(),
        ensures
            final(self).wf(),
            !handle_bound(final(self)@, handle),
            match key {
                Some(k) => old(self)@.contains_key(k) && old(self)@[k] == handle && final(self)@
                    == old(self)@.remove(k),
                None => !handle_bound(old(self)@, handle) && final(self)@ == old(self)@,
            },
    {
        match self.holder(handle) {
            Some(k) => {
                proof {
                    self.lemma_wf_injective();
                }
                self.unbind(k);
                proof {
                    if handle_bound(self@, handle) {
                        let o = choose|o: u64|
                            #[trigger] self@.contains_key(o) && self@[o] == handle;
                        assert(old(self)@.contains_key(o) && old(self)@[o] == handle);
                    }
                }
                Some(k)
            },
            None => None,
        }
    }

    /// Forgets what `key` was bound to and returns it.
    pub fn unbind(&mut self, key: u64) -> (handle: Option<EntityHandle>)
        requires
            old(self).wf(),
        ensures
            final(self).wf(),
            final(self)@ == old(self)@.remove(key),
            handle == if old(self)@.contains_key(key) {
                Some(old(self)@[key])
            } else {
                None
            },
    {
        match self.forward.remove(&key) {
            Some(h) => {
                let p: u64 = key_of(h);
                self.reverse.remove(&p);
                proof {
                    assert forall|k: u64| #[trigger]
                        self.forward@.contains_key(k) implies self.reverse@.contains_key(
                        handle_key(self.forward@[k]),
                    ) && self.reverse@[handle_key(self.forward@[k])] == k by {
                        assert(old(self).forward@.contains_key(k));
                        if handle_key(old(self).forward@[k]) == p {
                            lemma_handle_key_injective(old(self).forward@[k], h);
                        }
                    }
                    assert forall|q: u64| #[trigger]
                        self.reverse@.contains_key(q) implies self.forward@.contains_key(
                        self.reverse@[q],
                    ) && handle_key(self.forward@[self.reverse@[q]]) == q by {
                        assert(old(self).reverse@.contains_key(q));
                    }
                }
                Some(h)
            },
            None => None,
        }
    }
}

impl Default for IdentityTable {
    fn default() -> (table: Self)
        ensures
            table.wf(),
            table@ == Map::<u64, EntityHandle>::empty(),
    {
        IdentityTable::new()
    }
}

} // verus!
