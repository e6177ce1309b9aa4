use specs::world::EntitiesRes;
use vstd::prelude::*;

verus! {

/// A generation-counted reference to one entity of the simulation world: the slot it occupies and
/// the generation of that slot it was created in. A slot that is reused gets a new generation, so
/// a handle to the former occupant never equals a handle to the new one.
#[derive(Clone, Copy, Debug, PartialEq, Eq, Hash, Structural)]
pub struct EntityHandle {
    pub index: u32,
    pub generation: i32,
}

impl EntityHandle {
    pub open spec fn spec_authoritative_id(&self) -> u32 {
        self.index
    }

    /// The network-visible identifier under which the server announces this entity.
    #[verifier::when_used_as_spec(spec_authoritative_id)]
    pub fn authoritative_id(&self) -> (id: u32)
        ensures
            id == self.spec_authoritative_id(),
    {
        self.index
    }
}

/// Makes `specs::world::EntitiesRes`, the entity allocator of the simulation world, known as
/// a type. Nothing is said of what is inside it: what the library needs to know of an allocator
/// it asks of `slot_generations`, `issued_handles`, `creations_left` and `overdrawn_slots`.
#[verifier::external_type_specification]
#[verifier::external_body]
pub struct ExEntitiesRes(EntitiesRes);

/// For every slot of an entity allocator, the generation number of the entity that
/// `EntitiesRes::entity` returns for it.
pub uninterp spec fn slot_generations(ents: EntitiesRes) -> Map<u32, i32>;

/// How many more entities an entity allocator can create before it runs out of slot numbers,
/// or of generations for a slot.
pub uninterp spec fn creations_left(ents: EntitiesRes) -> nat;

/// The entities that an entity allocator has handed out so far, each as its slot and its
/// generation. A slot that is handed out again comes with a generation that it never had.
pub uninterp spec fn issued_handles(ents: EntitiesRes) -> Set<(u32, i32)>;

/// The slots of an entity allocator that have been raised again after their last generation,
/// so that no generation is left for their new occupant. For such a slot, and for no other
/// slot below `slot_limit`, `EntitiesRes::entity` panics.
pub uninterp spec fn overdrawn_slots(ents: EntitiesRes) -> Set<u32>;

/// Whether the world can tell the generation of the slot of `handle`.
pub open spec fn slot_readable(ents: EntitiesRes, handle: EntityHandle) -> bool {
    !overdrawn_slots(ents).contains(handle.index)
}

/// A handle as the pair under which `issued_handles` lists it.
pub open spec fn handle_pair(handle: EntityHandle) -> (u32, i32) {
    (handle.index, handle.generation)
}

/// How many slots an entity allocator can tell apart. It keeps its books in a tree of machine
/// words that is four levels deep.
pub open spec fn slot_limit() -> nat {
    (usize::BITS as nat) * (usize::BITS as nat) * (usize::BITS as nat) * (usize::BITS as nat)
}

/// Whether `handle` counts as alive in `world`: its slot is one that a world can have, its
/// generation is positive, and its generation is the one that `world` reports for its slot.
pub open spec fn live_in(world: Map<u32, i32>, handle: EntityHandle) -> bool {
    handle.index < slot_limit() && handle.generation > 0 && world[handle.index]
        == handle.generation
}

/// The slot generations after the world has created `handle`.
pub open spec fn world_with(world: Map<u32, i32>, handle: EntityHandle) -> Map<u32, i32> {
    world.insert(handle.index, handle.generation)
}

/// Whether `handle` can be what a world that has handed out `issued` creates next: a living
/// entity in a slot that the world can have, and none that it has handed out before.
pub open spec fn creatable(issued: Set<(u32, i32)>, handle: EntityHandle) -> bool {
    handle.index < slot_limit() && handle.generation > 0 && !issued.contains(handle_pair(handle))
}

/// An entity is alive in the world that has just created it.
pub proof fn law_created_entity_is_alive(
    world: Map<u32, i32>,
    issued: Set<(u32, i32)>,
    handle: EntityHandle,
)
    requires
        creatable(issued, handle),
    ensures
        live_in(world_with(world, handle), handle),
{
}

/// Calls `EntitiesRes::entity` and reads the generation number of the entity it returns, which
/// is the generation that `slot_generations` records for the slot. `entity` panics in two
/// cases, and the preconditions leave both out. Past `slot_limit` the allocator's bit sets
/// end, and a look into them panics. For a dead slot that has been raised, `entity` counts
/// the generation on by one with a checked subtraction, which fails where the dead occupant
/// had the last generation there is: those are the overdrawn slots.
#[verifier::external_body]
fn current_generation(ents: &EntitiesRes, index: u32) -> (generation: i32)
    requires
        index < slot_limit(),
        !overdrawn_slots(*ents).contains(index),
    ensures
        generation == slot_generations(*ents)[index],
{
    ents.entity(index).gen().id()
}

/// Calls `EntitiesRes::create`. The allocator panics, or hands out a generation that it cannot
/// count on from, only when it has no creation left, which the precondition excludes. One call
/// uses up one creation at most. The entity it returns becomes what the allocator reports for
/// its slot: `create` marks the slot as raised, and for a raised slot `entity` computes the
/// generation as `create` did. No other slot changes. The generation is 1 for a slot that was
/// never used and one more than that of the slot's last occupant otherwise, so it is positive
/// and the entity is one that the allocator has not handed out before. A slot is overdrawn
/// only by a creation that the allocator had not left, so this call overdraws none, and the
/// slot that it raises is not overdrawn.
#[verifier::external_body]
pub(crate) fn create_entity(ents: &mut EntitiesRes) -> (handle: EntityHandle)
    requires
        creations_left(*old(ents)) > 0,
    ensures
        slot_generations(*final(ents)) == world_with(slot_generations(*old(ents)), handle),
        creations_left(*final(ents)) + 1 >= creations_left(*old(ents)),
        handle.index < slot_limit(),
        handle.generation > 0,
        !issued_handles(*old(ents)).contains(handle_pair(handle)),
        issued_handles(*final(ents)) == issued_handles(*old(ents)).insert(handle_pair(handle)),
        overdrawn_slots(*final(ents)) == overdrawn_slots(*old(ents)),
        !overdrawn_slots(*final(ents)).contains(handle.index),
{
    let entity = ents.create();
    EntityHandle { index: entity.id(), generation: entity.gen().id() }
}

/// The number of slots that an entity allocator can tell apart on this machine.
fn max_slots() -> (n: u64)
    ensures
        n == slot_limit(),
{
    let bits: u64 = usize::BITS as u64;
    bits * bits * bits * bits
}

/// Re-validates a handle against the world: true iff the handle's generation is positive and
/// is the one that the world reports for the handle's slot. The world reports generation 1
/// for a slot that it has never used, so a handle of generation 1 to such a slot counts as
/// alive here, as it does to the world itself. The slot must be one whose generation the world
/// can tell.
pub fn is_alive(ents: &EntitiesRes, handle: EntityHandle) -> (alive: bool)
    requires
        slot_readable(*ents, handle),
    ensures
        alive == live_in(slot_generations(*ents), handle),
{
    (handle.index as u64) < max_slots() && handle.generation > 0 && current_generation(
        ents,
        handle.index,
    ) == handle.generation
}

/// Among the living entities of one world the authoritative id determines the handle.
pub proof fn law_authoritative_id_injective(world: Map<u32, i32>, a: EntityHandle, b: EntityHandle)
    requires
        live_in(world, a),
        live_in(world, b),
        a.authoritative_id() == b.authoritative_id(),
    ensures
        a == b,
{
}

/// A handle whose slot has been given to another entity is dead, whatever now lives there.
pub proof fn law_reused_slot_is_distinct(
    world: Map<u32, i32>,
    stale: EntityHandle,
    current: EntityHandle,
)
    requires
        live_in(world, current),
        stale.index == current.index,
        stale != current,
    ensures
        !live_in(world, stale),
{
}

} // verus!
