//! What a tick reports: the entities that went without their transform.

use vstd::prelude::*;
use crate::entity::EntityId;

verus! {

/// Why an entity went without its transform in a tick.
#[derive(Clone, Copy, Debug, PartialEq, Eq)]
pub enum FailureKind {
    /// The script could not be advanced.
    ScriptStep,
    /// What the script reported as its transform was not sixteen numbers.
    MalformedTransform,
    /// The store did not take the transform.
    StoreWrite,
}

/// One entity's failure in a tick.
#[derive(Clone, Copy, Debug, PartialEq, Eq)]
pub struct Failure {
    pub entity: EntityId,
    pub kind: FailureKind,
}

impl Failure {
    /// The failure is the script's own: it could not be advanced, or what it
    /// reported was no transform. A write that the store refused is not.
    pub open spec fn of_script(self) -> bool {
        !(self.kind is StoreWrite)
    }
}

/// `failures` names entities of `entities` only, by strictly increasing
/// identifier, and so none of them twice.
pub open spec fn failures_within(failures: Seq<Failure>, entities: Seq<EntityId>) -> bool {
    &&& forall|i: int, j: int|
        0 <= i < j < failures.len() ==> failures[i].entity < failures[j].entity
    &&& forall|i: int|
        0 <= i < failures.len() ==> entities.contains(#[trigger] failures[i].entity)
}

/// The entities of `failures` whose script failed, in the order of `failures`.
pub open spec fn failed_entities_of(failures: Seq<Failure>) -> Seq<EntityId> {
    failures.filter_map(
        |f: Failure|
            if f.of_script() {
                Some(f.entity)
            } else {
                None
            },
    )
}

/// `failures` holds a failure of the script of `entity`.
pub open spec fn script_failed(failures: Seq<Failure>, entity: EntityId) -> bool {
    exists|i: int|
        0 <= i < failures.len() && (#[trigger] failures[i]).entity == entity
            && failures[i].of_script()
}

/// An entity is among the failed entities exactly if one of the failures is
/// its script's.
pub proof fn lemma_failed_entities(failures: Seq<Failure>, entity: EntityId)
    ensures
        failed_entities_of(failures).contains(entity) <==> script_failed(failures, entity),
    decreases failures.len(),
{
    if failures.len() > 0 {
        let rest = failures.drop_last();
        let last = failures.last();
        let failed = failed_entities_of(failures);
        let failed_before = failed_entities_of(rest);
        lemma_failed_entities(rest, entity);
        if last.of_script() && last.entity == entity {
            assert(failed.last() == entity);
            assert(failures[failures.len() - 1] == last);
        } else {
            assert(failed.contains(entity) <==> failed_before.contains(entity)) by {
                if failed.contains(entity) {
                    let k = choose|k: int| 0 <= k < failed.len() && failed[k] == entity;
                    assert(failed_before[k] == entity);
                }
                if failed_before.contains(entity) {
                    let k = choose|k: int| 0 <= k < failed_before.len() && failed_before[k] == entity;
                    assert(failed[k] == entity);
                }
            }
            assert(script_failed(failures, entity) <==> script_failed(rest, entity)) by {
                if script_failed(failures, entity) {
                    let i = choose|i: int|
                        0 <= i < failures.len() && (#[trigger] failures[i]).entity == entity
                            && failures[i].of_script();
                    assert(rest[i] == failures[i]);
                }
                if script_failed(rest, entity) {
                    let i = choose|i: int|
                        0 <= i < rest.len() && (#[trigger] rest[i]).entity == entity
                            && rest[i].of_script();
                    assert(failures[i] == rest[i]);
                }
            }
        }
    }
}

/// The outcome of a tick.
#[derive(Debug, PartialEq, Eq)]
pub struct TickReport {
    /// How many entities had their transform written in this tick.
    pub written: usize,
    /// The entities that went without their transform in this tick, each with
    /// the reason, by increasing identifier.
    pub failures: Vec<Failure>,
}

impl TickReport {
    /// The entities whose script failed in this tick, by increasing
    /// identifier: those whose script could not be advanced and those whose
    /// script reported a malformed transform.
    pub fn failed_entities(&self) -> (failed: Vec<EntityId>)
        ensures
            failed@ == failed_entities_of(self.failures@),
    {
        let ghost pick = |f: Failure|
            if f.of_script() {
                Some(f.entity)
            } else {
                None
            };
        let mut failed: Vec<EntityId> = Vec::new();
        let mut i: usize = 0;
        while i < self.failures.len()
            invariant
                i <= self.failures.len(),
                pick == |f: Failure|
                    if f.of_script() {
                        Some(f.entity)
                    } else {
                        None
                    },
                failed@ == self.failures@.take(i as int).filter_map(pick),
            decreases self.failures.len() - i,
        {
            proof {
                self.failures@.lemma_filter_map_take_succ(pick, i as int);
            }
            let failure = self.failures[i];
            match failure.kind {
                FailureKind::StoreWrite => {},
                _ => {
                    failed.push(failure.entity);
                },
            }
            i = i + 1;
        }
        proof {
            assert(self.failures@.take(i as int) == self.failures@);
        }
        failed
    }
}

} // verus!
