//! Entity identifiers and the order in which attached entities are visited.

use vstd::prelude::*;

verus! {

/// Identifies one entity of the simulation.
///
/// Identifiers are allocated by the entity store. This crate only compares
/// them: it never creates one and attaches no meaning to the number.
pub type EntityId = u64;

/// `ids` lists entities by strictly increasing identifier.
pub open spec fn ascending(ids: Seq<EntityId>) -> bool {
    forall|i: int, j: int| 0 <= i < j < ids.len() ==> ids[i] < ids[j]
}

/// The order in which the entities of `ids` are visited: each of them once,
/// by increasing identifier.
pub open spec fn visit_order(ids: Set<EntityId>) -> Seq<EntityId> {
    choose|order: Seq<EntityId>| ascending(order) && order.to_set() == ids
}

/// Two ascending listings of the same entities are the same listing.
///
/// The order of a visit therefore depends on nothing but which entities are
/// attached: not on the order in which they were attached, nor on how often
/// they have been visited before.
pub proof fn lemma_ascending_is_unique(a: Seq<EntityId>, b: Seq<EntityId>)
    requires
        ascending(a),
        ascending(b),
        a.to_set() == b.to_set(),
    ensures
        a == b,
    decreases a.len(),
{
    if a.len() == 0 {
        // Then `b` is empty too: its first entity would be listed in `a`.
        if b.len() > 0 {
            assert(a.to_set().contains(b[0]));
        }
    } else {
        // Each listing holds the last entity of the other, so both end in the
        // greatest entity of all.
        assert(b.to_set().contains(a.last()));
        assert(a.to_set().contains(b.last()));
        // Without it, they list the same entities again.
        let shorter_a = a.drop_last();
        let shorter_b = b.drop_last();
        assert forall|e: EntityId| shorter_a.to_set().contains(e) <==> shorter_b.to_set().contains(
            e,
        ) by {
            if shorter_a.to_set().contains(e) {
                let i = choose|i: int| 0 <= i < shorter_a.len() && shorter_a[i] == e;
                assert(b.to_set().contains(a[i]));
                let j = choose|j: int| 0 <= j < b.len() && b[j] == e;
                assert(shorter_b[j] == e);
            }
            if shorter_b.to_set().contains(e) {
                let j = choose|j: int| 0 <= j < shorter_b.len() && shorter_b[j] == e;
                assert(a.to_set().contains(b[j]));
                let i = choose|i: int| 0 <= i < a.len() && a[i] == e;
                assert(shorter_a[i] == e);
            }
        }
        assert(shorter_a.to_set() =~= shorter_b.to_set());
        lemma_ascending_is_unique(shorter_a, shorter_b);
        assert(a =~= shorter_a.push(a.last()));
        assert(b =~= shorter_b.push(b.last()));
    }
}

/// An ascending listing of `ids` is the order in which `ids` is visited.
pub proof fn lemma_visit_order_of_listing(order: Seq<EntityId>, ids: Set<EntityId>)
    requires
        ascending(order),
        order.to_set() == ids,
    ensures
        visit_order(ids) == order,
{
    lemma_ascending_is_unique(visit_order(ids), order);
}

} // verus!
