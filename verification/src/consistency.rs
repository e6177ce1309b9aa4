use crate::client::{
    all_issued, client_after, client_trace, law_no_new_entity_is_refused,
    lemma_client_trace_prefix, ClientModel,
};
use crate::dispatch::{DispatchError, Outcome};
use crate::login::{
    law_welcome_announces_before_it_describes, welcome_messages, WorldEntityValue,
};
use crate::world::EntityHandle;
use crate::wire::component::ComponentValue;
use crate::wire::message::MessageValue;
use vstd::prelude::*;

verus! {

/// A client never forgets a binding while it dispatches: an id that is bound at one point of a
/// dispatch is bound at every later point.
pub proof fn lemma_client_bindings_persist(
    s0: ClientModel,
    msgs: Seq<MessageValue>,
    outcomes: Seq<Outcome>,
    j: int,
    k: int,
    key: u64,
)
    requires
        client_trace(s0, msgs, outcomes),
        0 <= j <= k <= msgs.len(),
        client_after(s0, msgs.take(j), outcomes.take(j)).table.contains_key(key),
    ensures
        client_after(s0, msgs.take(k), outcomes.take(k)).table.contains_key(key),
    decreases k - j,
{
    if j < k {
        lemma_client_bindings_persist(s0, msgs, outcomes, j, k - 1, key);
        lemma_client_trace_prefix(s0, msgs, outcomes, k);
        assert(msgs.take(k).drop_last() =~= msgs.take(k - 1));
        assert(outcomes.take(k).drop_last() =~= outcomes.take(k - 1));
    }
}

/// What the server sends to welcome a newcomer, a client understands: when a client whose
/// table holds only entities that its world has handed out takes a welcome in order, then no
/// component of the welcome is dropped for want of its entity, the viewpoint on the newcomer's
/// own entity no more than the rest.
pub proof fn law_welcome_is_understood(
    s0: ClientModel,
    world: Seq<WorldEntityValue>,
    own: EntityHandle,
    outcomes: Seq<Outcome>,
    k: int,
    id: u32,
    component: ComponentValue,
)
    requires
        client_trace(s0, welcome_messages(world, own), outcomes),
        0 <= k < welcome_messages(world, own).len(),
        welcome_messages(world, own)[k] == MessageValue::InsertComp(id, component),
        all_issued(s0.table, s0.issued),
    ensures
        outcomes[k] != (Outcome::Dropped { key: id as u64, error: DispatchError::UnknownId }),
{
    let msgs = welcome_messages(world, own);
    law_welcome_announces_before_it_describes(world, own, k, id, component);
    let j = choose|j: int| 0 <= j < k && msgs[j] == MessageValue::NewEnt(id);
    law_no_new_entity_is_refused(s0, msgs, outcomes);
    lemma_client_trace_prefix(s0, msgs, outcomes, j);
    assert(!(outcomes[j] is Refused));
    assert(outcomes[j] is Bound);
    lemma_client_trace_prefix(s0, msgs, outcomes, j + 1);
    assert(msgs.take(j + 1).drop_last() =~= msgs.take(j));
    assert(outcomes.take(j + 1).drop_last() =~= outcomes.take(j));
    assert(msgs.take(j + 1).last() == msgs[j]);
    assert(outcomes.take(j + 1).last() == outcomes[j]);
    assert(client_after(s0, msgs.take(j + 1), outcomes.take(j + 1)).table.contains_key(id as u64));
    lemma_client_bindings_persist(s0, msgs, outcomes, j + 1, k, id as u64);
    lemma_client_trace_prefix(s0, msgs, outcomes, k);
}

} // verus!
