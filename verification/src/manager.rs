//! The scripts attached to entities, and the tick that drives them.

use vstd::prelude::*;
use crate::entity::{ascending, lemma_visit_order_of_listing, visit_order, EntityId};
use crate::pass::{Action, Event, PassState, TickPass};
use crate::report::{failures_within, TickReport};
use crate::script::{ScriptHandle, TransformStore};

verus! {

/// Owns the script attached to each entity, at most one per entity, and
/// drives them once per tick.
///
/// As a map from entity to script, a manager is its view. The entities are
/// kept by increasing identifier, which is the order in which a tick visits
/// them.
pub struct ScriptManager<H> {
    ids: Vec<EntityId>,
    scripts: Vec<H>,
}

/// The map that attaches `scripts[i]` to `ids[i]`.
spec fn attached<H>(ids: Seq<EntityId>, scripts: Seq<H>) -> Map<EntityId, H> {
    Map::new(|e: EntityId| ids.contains(e), |e: EntityId| scripts[ids.index_of(e)])
}

/// In an ascending listing an entity is found at its own place.
proof fn lemma_index_of(ids: Seq<EntityId>, i: int)
    requires
        ascending(ids),
        0 <= i < ids.len(),
    ensures
        ids.index_of(ids[i]) == i,
        ids.contains(ids[i]),
{
    // `index_of` finds a place that holds the entity, and by the order there
    // is only one.
    let found = ids.index_of(ids[i]);
    assert(ids[found] == ids[i]);
}

/// The script at a place is the one attached to the entity at that place.
proof fn lemma_attached_at<H>(ids: Seq<EntityId>, scripts: Seq<H>, at: int)
    requires
        ascending(ids),
        0 <= at < ids.len(),
    ensures
        attached(ids, scripts).contains_key(ids[at]),
        attached(ids, scripts)[ids[at]] == scripts[at],
{
    lemma_index_of(ids, at);
}

/// The entities with a script are the listed ones.
proof fn lemma_attached_dom<H>(ids: Seq<EntityId>, scripts: Seq<H>)
    ensures
        attached(ids, scripts).dom() == ids.to_set(),
{
}

/// Attaching a script to an entity that has none puts both at the entity's
/// place in the order.
proof fn lemma_attach_new<H>(
    ids: Seq<EntityId>,
    scripts: Seq<H>,
    at: int,
    entity: EntityId,
    script: H,
)
    requires
        ascending(ids),
        ids.len() == scripts.len(),
        0 <= at <= ids.len(),
        forall|j: int| 0 <= j < at ==> ids[j] < entity,
        forall|j: int| at <= j < ids.len() ==> entity < ids[j],
    ensures
        ascending(ids.insert(at, entity)),
        attached(ids.insert(at, entity), scripts.insert(at, script)) == attached(
            ids,
            scripts,
        ).insert(entity, script),
{
    let ids2 = ids.insert(at, entity);
    let scripts2 = scripts.insert(at, script);
    let before = attached(ids, scripts);
    let after = attached(ids2, scripts2);
    assert forall|e: EntityId| after.contains_key(e) <==> before.insert(
        entity,
        script,
    ).contains_key(e) by {
        if ids2.contains(e) {
            let k = choose|k: int| 0 <= k < ids2.len() && ids2[k] == e;
            if k < at {
                assert(ids[k] == e);
            } else if k > at {
                assert(ids[k - 1] == e);
            }
        }
        if ids.contains(e) {
            let k = choose|k: int| 0 <= k < ids.len() && ids[k] == e;
            if k < at {
                assert(ids2[k] == e);
            } else {
                assert(ids2[k + 1] == e);
            }
        }
        if e == entity {
            assert(ids2[at] == e);
        }
    }
    assert forall|e: EntityId| after.contains_key(e) implies after[e] == before.insert(
        entity,
        script,
    )[e] by {
        let k = choose|k: int| 0 <= k < ids2.len() && ids2[k] == e;
        lemma_index_of(ids2, k);
        if k < at {
            lemma_index_of(ids, k);
        } else if k > at {
            lemma_index_of(ids, k - 1);
        }
    }
}

/// Attaching a script to an entity that has one replaces that one.
proof fn lemma_attach_again<H>(ids: Seq<EntityId>, scripts: Seq<H>, at: int, script: H)
    requires
        ascending(ids),
        ids.len() == scripts.len(),
        0 <= at < ids.len(),
    ensures
        attached(ids, scripts.update(at, script)) == attached(ids, scripts).insert(
            ids[at],
            script,
        ),
{
    let before = attached(ids, scripts);
    let after = attached(ids, scripts.update(at, script));
    lemma_index_of(ids, at);
    assert forall|e: EntityId| after.contains_key(e) implies after[e] == before.insert(
        ids[at],
        script,
    )[e] by {
        let k = choose|k: int| 0 <= k < ids.len() && ids[k] == e;
        lemma_index_of(ids, k);
    }
}

/// Taking an entity out takes its script out, and nothing else.
proof fn lemma_detach<H>(ids: Seq<EntityId>, scripts: Seq<H>, at: int)
    requires
        ascending(ids),
        ids.len() == scripts.len(),
        0 <= at < ids.len(),
    ensures
        ascending(ids.remove(at)),
        attached(ids, scripts)[ids[at]] == scripts[at],
        attached(ids.remove(at), scripts.remove(at)) == attached(ids, scripts).remove(ids[at]),
{
    let ids2 = ids.remove(at);
    let scripts2 = scripts.remove(at);
    let before = attached(ids, scripts);
    let after = attached(ids2, scripts2);
    lemma_index_of(ids, at);
    assert forall|e: EntityId| after.contains_key(e) <==> before.remove(ids[at]).contains_key(
        e,
    ) by {
        if ids2.contains(e) {
            let k = choose|k: int| 0 <= k < ids2.len() && ids2[k] == e;
            if k < at {
                assert(ids[k] == e);
            } else {
                assert(ids[k + 1] == e);
            }
        }
        if ids.contains(e) && e != ids[at] {
            let k = choose|k: int| 0 <= k < ids.len() && ids[k] == e;
            if k < at {
                assert(ids2[k] == e);
            } else {
                assert(ids2[k - 1] == e);
            }
        }
    }
    assert forall|e: EntityId| after.contains_key(e) implies after[e] == before.remove(
        ids[at],
    )[e] by {
        let k = choose|k: int| 0 <= k < ids2.len() && ids2[k] == e;
        lemma_index_of(ids2, k);
        if k < at {
            lemma_index_of(ids, k);
        } else {
            lemma_index_of(ids, k + 1);
        }
    }
}

/// An entity that is not listed has no script.
proof fn lemma_not_attached<H>(ids: Seq<EntityId>, scripts: Seq<H>, at: int, entity: EntityId)
    requires
        ascending(ids),
        0 <= at <= ids.len(),
        forall|j: int| 0 <= j < at ==> ids[j] < entity,
        forall|j: int| at <= j < ids.len() ==> entity < ids[j],
    ensures
        !attached(ids, scripts).contains_key(entity),
        attached(ids, scripts).remove(entity) == attached(ids, scripts),
{
    if ids.contains(entity) {
        let k = choose|k: int| 0 <= k < ids.len() && ids[k] == entity;
        assert(ids[k] < entity || entity < ids[k]);
    }
}

/// The place of `entity` in `ids`: the first place whose entity is not before
/// it.
fn place(ids: &Vec<EntityId>, entity: EntityId) -> (at: usize)
    requires
        ascending(ids@),
    ensures
        at <= ids.len(),
        forall|j: int| 0 <= j < at ==> ids[j] < entity,
        forall|j: int| at <= j < ids.len() ==> entity <= ids[j],
{
    let mut low: usize = 0;
    let mut high: usize = ids.len();
    while low < high
        invariant
            ascending(ids@),
            low <= high <= ids.len(),
            forall|j: int| 0 <= j < low ==> ids[j] < entity,
            forall|j: int| high <= j < ids.len() ==> entity <= ids[j],
        decreases high - low,
    {
        let middle: usize = low + (high - low) / 2;
        if ids[middle] < entity {
            low = middle + 1;
        } else {
            high = middle;
        }
    }
    low
}

impl<H> View for ScriptManager<H> {
    type V = Map<EntityId, H>;

    closed spec fn view(&self) -> Map<EntityId, H> {
        attached(self.ids@, self.scripts@)
    }
}

impl<H> ScriptManager<H> {
    #[verifier::type_invariant]
    spec fn inv(self) -> bool {
        self.ids.len() == self.scripts.len() && ascending(self.ids@)
    }

    /// A manager with nothing attached.
    pub fn new() -> (manager: Self)
        ensures
            manager@ == Map::<EntityId, H>::empty(),
    {
        ScriptManager { ids: Vec::new(), scripts: Vec::new() }
    }

    /// Takes the entities and their scripts out of the manager, which is left
    /// with nothing attached until they are put back.
    ///
    /// Scripts are advanced, and the lists changed, outside the manager: the
    /// manager itself is well-formed at every moment, also if a script
    /// panics.
    fn take_all(&mut self) -> (held: (Vec<EntityId>, Vec<H>))
        ensures
            held.0.len() == held.1.len(),
            ascending(held.0@),
            attached(held.0@, held.1@) == old(self)@,
    {
        let mut held = ScriptManager::new();
        std::mem::swap(self, &mut held);
        proof {
            use_type_invariant(&held);
        }
        (held.ids, held.scripts)
    }

    /// Attaches `script` to `eid`.
    ///
    /// A script that was attached to `eid` before is dropped: from now on
    /// `script` is the one that a tick advances and queries for `eid`.
    pub fn add_script(&mut self, eid: EntityId, script: H)
        ensures
            final(self)@ == old(self)@.insert(eid, script),
    {
        let (mut ids, mut scripts) = self.take_all();
        let at = place(&ids, eid);
        if at < ids.len() && ids[at] == eid {
            proof {
                lemma_attach_again(ids@, scripts@, at as int, script);
            }
            scripts[at] = script;
        } else {
            proof {
                lemma_attach_new(ids@, scripts@, at as int, eid, script);
            }
            ids.insert(at, eid);
            scripts.insert(at, script);
        }
        *self = ScriptManager { ids, scripts };
    }

    /// Detaches and returns the script of `eid`.
    ///
    /// If nothing is attached to `eid`, nothing changes and nothing is
    /// returned.
    pub fn detach(&mut self, eid: EntityId) -> (script: Option<H>)
        ensures
            script == (if old(self)@.contains_key(eid) {
                Some(old(self)@[eid])
            } else {
                None
            }),
            final(self)@ == old(self)@.remove(eid),
            !old(self)@.contains_key(eid) ==> final(self)@ == old(self)@,
    {
        let (mut ids, mut scripts) = self.take_all();
        let at = place(&ids, eid);
        let script = if at < ids.len() && ids[at] == eid {
            proof {
                lemma_index_of(ids@, at as int);
                lemma_detach(ids@, scripts@, at as int);
            }
            ids.remove(at);
            Some(scripts.remove(at))
        } else {
            proof {
                lemma_not_attached(ids@, scripts@, at as int, eid);
            }
            None
        };
        *self = ScriptManager { ids, scripts };
        script
    }

    /// The entities that have a script attached, in the order in which a tick
    /// visits them: by increasing identifier.
    pub fn entities(&self) -> (ids: Vec<EntityId>)
        ensures
            ids@ == visit_order(self@.dom()),
            ascending(ids@),
            ids@.to_set() == self@.dom(),
    {
        proof {
            use_type_invariant(self);
            lemma_attached_dom(self.ids@, self.scripts@);
            lemma_visit_order_of_listing(self.ids@, self@.dom());
        }
        self.ids.clone()
    }

    /// Starts a tick over the entities attached now.
    ///
    /// The pass only says what is to be done: its driver advances and queries
    /// the scripts and writes to the store.
    pub fn begin_tick(&self) -> (pass: TickPass)
        ensures
            pass@ == PassState::start(visit_order(self@.dom())),
            ascending(pass@.order),
            pass@.order.to_set() == self@.dom(),
    {
        TickPass::begin(self.entities())
    }
}

impl<H> Default for ScriptManager<H> {
    /// A manager with nothing attached.
    fn default() -> (manager: Self)
        ensures
            manager@ == Map::<EntityId, H>::empty(),
    {
        ScriptManager::new()
    }
}

impl<H: ScriptHandle> ScriptManager<H> {
    /// Runs one tick: advances every attached script, by increasing entity
    /// identifier, asks each advanced script for its transform, and writes
    /// each well-formed transform to `store` under the script's entity.
    ///
    /// What the scripts and the store answer is up to them; the tick follows
    /// the rules of [`PassState::after`] on every answer. Whatever they
    /// answer, the tick deals with every attached entity: each one is either
    /// counted as written or reported with its failure. The failures are
    /// reported by increasing identifier, and the same entities are attached
    /// afterwards.
    ///
    /// A panic in a script or in the store is not caught, and the scripts do
    /// not outlive it.
    pub fn tick<S: TransformStore>(&mut self, store: &mut S) -> (report: TickReport)
        ensures
            final(self)@.dom() == old(self)@.dom(),
            report.written + report.failures@.len() == visit_order(old(self)@.dom()).len(),
            failures_within(report.failures@, visit_order(old(self)@.dom())),
            old(self)@.dom().is_empty() ==> report.written == 0 && report.failures@.len() == 0,
    {
        let (ids, mut scripts) = self.take_all();
        proof {
            lemma_attached_dom(ids@, scripts@);
            lemma_visit_order_of_listing(ids@, old(self)@.dom());
        }
        let mut pass = TickPass::begin(ids.clone());
        loop
            invariant
                ids.len() == scripts.len(),
                ascending(ids@),
                pass@.wf(),
                pass@.order == ids@,
            ensures
                pass@.done(),
            decreases pass@.remaining(),
        {
            let at = pass.position();
            let action = pass.pending();
            // What is asked about an entity is asked of the script attached to
            // that entity.
            assert(forall|entity: EntityId| action.concerns(entity) ==> attached(
                ids@,
                scripts@,
            )[entity] == scripts@[at as int]) by {
                if !pass@.done() {
                    lemma_attached_at(ids@, scripts@, at as int);
                }
            }
            let event = match action {
                Action::Done => {
                    break ;
                },
                Action::Advance(_) => match scripts[at].advance_tick() {
                    Ok(_) => Event::Stepped,
                    Err(_) => Event::StepFailed,
                },
                Action::Query(_) => match scripts[at].query_transform() {
                    Ok(raw) => Event::Elements(raw),
                    Err(_) => Event::NoElements,
                },
                Action::Write(entity, transform) => match store.update_transform(
                    entity,
                    &transform,
                ) {
                    Ok(_) => Event::Stored,
                    Err(_) => Event::StoreFailed,
                },
            };
            proof {
                pass@.lemma_after(event);
            }
            pass = pass.resolve(event);
        }
        let report = pass.into_report();
        proof {
            lemma_attached_dom(ids@, scripts@);
            if ids@.len() > 0 {
                assert(ids@.to_set().contains(ids@[0]));
            }
        }
        *self = ScriptManager { ids, scripts };
        report
    }
}

/// The map after the scripts of `scripts` have been attached to `eid`, one
/// after the other.
pub open spec fn attach_each<H>(map: Map<EntityId, H>, eid: EntityId, scripts: Seq<H>) -> Map<
    EntityId,
    H,
>
    decreases scripts.len(),
{
    if scripts.len() == 0 {
        map
    } else {
        attach_each(map, eid, scripts.drop_last()).insert(eid, scripts.last())
    }
}

/// However many scripts are attached to one entity in a row, the entity ends
/// up with the last of them, and every other entity keeps what it had.
pub proof fn lemma_last_attached_wins<H>(map: Map<EntityId, H>, eid: EntityId, scripts: Seq<H>)
    requires
        scripts.len() > 0,
    ensures
        attach_each(map, eid, scripts) == map.insert(eid, scripts.last()),
    decreases scripts.len(),
{
    if scripts.len() > 1 {
        lemma_last_attached_wins(map, eid, scripts.drop_last());
    }
    assert(attach_each(map, eid, scripts.drop_last()).insert(eid, scripts.last()) =~= map.insert(
        eid,
        scripts.last(),
    ));
}

} // verus!
