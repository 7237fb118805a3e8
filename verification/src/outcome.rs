//! What a whole tick comes to.
//!
//! The rules of a pass are stated one answer at a time. Here they are added
//! up. Whatever a pass is told, nothing is written for an entity whose script
//! has failed. And given, for every entity, what its script and the store
//! answer when asked, the failures that a tick records and the transforms
//! that it has written are determined, for each entity by the answers for
//! that entity alone.

use vstd::prelude::*;
use crate::entity::{ascending, EntityId};
use crate::pass::{Action, Event, PassState, Stage};
use crate::report::{Failure, FailureKind};
use crate::transform::{Transform, TRANSFORM_LEN};

verus! {

/// What the script of one entity and the store answer in one tick, if asked.
pub struct Replies {
    /// Whether the script lets itself be advanced.
    pub steps: bool,
    /// The numbers that the script reports as its transform, if it reports
    /// numbers at all.
    pub elements: Option<Vec<u32>>,
    /// Whether the store takes a transform for the entity.
    pub stores: bool,
}

impl Replies {
    /// The transform that the tick hands to the store for the entity, if it
    /// gets that far: the script was advanced and reported sixteen numbers.
    pub open spec fn transform(self) -> Option<Transform> {
        match self.elements {
            Some(raw) => if self.steps && raw@.len() == TRANSFORM_LEN {
                Some(Transform::of(raw@))
            } else {
                None
            },
            None => None,
        }
    }

    /// How the entity fails in the tick, if it does.
    pub open spec fn failure(self) -> Option<FailureKind> {
        if !self.steps {
            Some(FailureKind::ScriptStep)
        } else if self.transform() is None {
            Some(FailureKind::MalformedTransform)
        } else if !self.stores {
            Some(FailureKind::StoreWrite)
        } else {
            None
        }
    }

    /// The answers that the driver of a pass gets and hands on for the
    /// entity, in order.
    pub open spec fn events(self) -> Seq<Event> {
        if !self.steps {
            seq![Event::StepFailed]
        } else {
            let reported = match self.elements {
                Some(raw) => Event::Elements(raw),
                None => Event::NoElements,
            };
            if self.transform() is None {
                seq![Event::Stepped, reported]
            } else if self.stores {
                seq![Event::Stepped, reported, Event::Stored]
            } else {
                seq![Event::Stepped, reported, Event::StoreFailed]
            }
        }
    }
}

impl PassState {
    /// The writes that the driver of the pass has made once it has handed
    /// over `events`, in the order in which it made them: one for every event
    /// that answers a pending write, whether the store took it or not.
    pub open spec fn writes(self, events: Seq<Event>) -> Seq<(EntityId, Transform)>
        decreases events.len(),
    {
        if events.len() == 0 {
            Seq::empty()
        } else {
            let earlier = self.writes(events.drop_last());
            let before = self.run(events.drop_last());
            match before.pending() {
                Action::Write(entity, transform) => if before.expects(events.last()) {
                    earlier.push((entity, transform))
                } else {
                    earlier
                },
                _ => earlier,
            }
        }
    }

    /// Handing over events in two parts is handing them over in one.
    pub proof fn lemma_run_in_parts(self, first: Seq<Event>, second: Seq<Event>)
        ensures
            self.run(first + second) == self.run(first).run(second),
            self.writes(first + second) == self.writes(first) + self.run(first).writes(second),
        decreases second.len(),
    {
        if second.len() == 0 {
            assert(self.writes(first) + Seq::<(EntityId, Transform)>::empty() =~= self.writes(
                first,
            ));
        } else {
            assert((first + second).drop_last() =~= first + second.drop_last());
            self.lemma_run_in_parts(first, second.drop_last());
            let earlier = self.writes(first) + self.run(first).writes(second.drop_last());
            let entry = self.run(first).run(second.drop_last()).pending();
            if entry is Write {
                assert(earlier.push((entry->Write_0, entry->Write_1)) =~= self.writes(first)
                    + self.run(first).writes(second.drop_last()).push(
                    (entry->Write_0, entry->Write_1),
                ));
            }
        }
    }

    /// One entity's part of a tick: from the moment the pass asks for its
    /// script to be advanced, the answers for the entity settle it with its
    /// failure, if it has one, and make the driver write its transform, if it
    /// has one.
    pub proof fn lemma_entity_outcome(self, replies: Replies)
        requires
            self.pending() is Advance,
        ensures
            self.run(replies.events()) == self.settle(replies.failure()),
            self.writes(replies.events()) == match replies.transform() {
                Some(transform) => seq![(self.order[self.cursor as int], transform)],
                None => Seq::empty(),
            },
    {
        // The answers are handed over one by one: at most three of them.
        let events = replies.events();
        let none = Seq::<Event>::empty();
        let one = events.take(1);
        assert(self.run(none) == self && self.writes(none) =~= Seq::empty());
        assert(one.drop_last() =~= none);
        assert(self.run(one) == self.after(events[0]));
        assert(self.writes(one) =~= Seq::empty());
        if events.len() == 1 {
            assert(events =~= one);
        } else {
            let two = events.take(2);
            assert(two.drop_last() =~= one);
            assert(self.run(two) == self.run(one).after(events[1]));
            assert(self.writes(two) =~= Seq::empty());
            if events.len() == 2 {
                assert(events =~= two);
            } else {
                assert(events.drop_last() =~= two);
            }
        }
    }
}

impl PassState {
    /// The writes are all for entities that the pass has dealt with, and none
    /// of them is for an entity whose script has failed.
    pub open spec fn covers(self, writes: Seq<(EntityId, Transform)>) -> bool {
        &&& forall|i: int|
            0 <= i < writes.len() ==> self.order.take(self.cursor as int).contains(
                #[trigger] writes[i].0,
            )
        &&& forall|i: int, j: int|
            0 <= i < writes.len() && 0 <= j < self.failures.len() && (#[trigger] writes[i]).0 == (
            #[trigger] self.failures[j]).entity ==> !self.failures[j].of_script()
    }

    /// No transform is ever written for an entity whose script has failed.
    ///
    /// Whatever is handed to a pass from its start, in whatever order: where
    /// the pass has recorded that a script could not be advanced, or that it
    /// reported a malformed transform, the driver has not been asked to write
    /// anything for that entity.
    pub proof fn lemma_failed_script_is_never_written(order: Seq<EntityId>, events: Seq<Event>)
        requires
            ascending(order),
        ensures
            PassState::start(order).run(events).covers(PassState::start(order).writes(events)),
        decreases events.len(),
    {
        let start = PassState::start(order);
        if events.len() > 0 {
            let before = start.run(events.drop_last());
            let next = start.run(events);
            let c = before.cursor as int;
            Self::lemma_failed_script_is_never_written(order, events.drop_last());
            start.lemma_run(events.drop_last());
            before.lemma_after(events.last());
            if next.cursor > before.cursor {
                // The entity under the cursor has been settled: it is another
                // one than all that were dealt with before.
                assert forall|e: EntityId| before.order.take(c).contains(e) implies e
                    != before.order[c] && next.order.take(c + 1).contains(e) by {
                    let k = choose|k: int| 0 <= k < c && before.order.take(c)[k] == e;
                    assert(next.order.take(c + 1)[k] == e);
                }
                assert(next.order.take(c + 1)[c] == before.order[c]);
            }
        }
    }
}

/// The answers that the driver of a tick over `order` hands to the pass, from
/// the first entity's to the last one's.
pub open spec fn tick_events(order: Seq<EntityId>, replies: spec_fn(EntityId) -> Replies) -> Seq<
    Event,
>
    decreases order.len(),
{
    if order.len() == 0 {
        Seq::empty()
    } else {
        tick_events(order.drop_last(), replies) + replies(order.last()).events()
    }
}

/// The failures of a tick over `order`: for each entity that fails, in order,
/// its own failure.
pub open spec fn tick_failures(
    order: Seq<EntityId>,
    replies: spec_fn(EntityId) -> Replies,
) -> Seq<Failure> {
    order.filter_map(
        |entity: EntityId|
            match replies(entity).failure() {
                Some(kind) => Some(Failure { entity, kind }),
                None => None,
            },
    )
}

/// The writes of a tick over `order`: for each entity whose script was
/// advanced and reported a transform, in order, that transform under that
/// entity.
pub open spec fn tick_writes(
    order: Seq<EntityId>,
    replies: spec_fn(EntityId) -> Replies,
) -> Seq<(EntityId, Transform)> {
    order.filter_map(
        |entity: EntityId|
            match replies(entity).transform() {
                Some(transform) => Some((entity, transform)),
                None => None,
            },
    )
}

/// The first `count` entities' part of a tick.
proof fn lemma_tick_so_far(
    order: Seq<EntityId>,
    replies: spec_fn(EntityId) -> Replies,
    count: nat,
)
    requires
        count <= order.len(),
    ensures
        PassState::start(order).run(tick_events(order.take(count as int), replies)) == (PassState {
            order,
            cursor: count,
            stage: Stage::Advance,
            written: (count - tick_failures(order.take(count as int), replies).len()) as nat,
            failures: tick_failures(order.take(count as int), replies),
        }),
        tick_failures(order.take(count as int), replies).len() <= count,
        PassState::start(order).writes(tick_events(order.take(count as int), replies))
            == tick_writes(order.take(count as int), replies),
    decreases count,
{
    let start = PassState::start(order);
    let upto = order.take(count as int);
    if count == 0 {
    } else {
        let before = order.take(count - 1);
        let entity = order[count - 1];
        let own = replies(entity);
        assert(upto.drop_last() =~= before);
        lemma_tick_so_far(order, replies, (count - 1) as nat);
        let reached = start.run(tick_events(before, replies));
        start.lemma_run_in_parts(tick_events(before, replies), own.events());
        reached.lemma_entity_outcome(own);
        assert(tick_failures(upto, replies) =~= match own.failure() {
            Some(kind) => tick_failures(before, replies).push(Failure { entity, kind }),
            None => tick_failures(before, replies),
        });
        assert(tick_writes(upto, replies) =~= match own.transform() {
            Some(transform) => tick_writes(before, replies).push((entity, transform)),
            None => tick_writes(before, replies),
        });
    }
}

/// A tick deals with every entity, and with each on its own.
///
/// Whatever the scripts and the store answer, the pass over `order` is done
/// once the answers for every entity have been handed over. Its failures are
/// then those of the entities that failed, each decided by the answers for
/// that entity alone, and so are the transforms that have been written. In
/// particular, where every script is advanced and reports sixteen numbers,
/// exactly these are written, each under its own entity and in visiting
/// order.
pub proof fn lemma_tick_outcome(order: Seq<EntityId>, replies: spec_fn(EntityId) -> Replies)
    ensures
        PassState::start(order).run(tick_events(order, replies)).done(),
        PassState::start(order).run(tick_events(order, replies)).failures == tick_failures(
            order,
            replies,
        ),
        PassState::start(order).run(tick_events(order, replies)).written == order.len()
            - tick_failures(order, replies).len(),
        PassState::start(order).writes(tick_events(order, replies)) == tick_writes(order, replies),
{
    assert(order.take(order.len() as int) =~= order);
    lemma_tick_so_far(order, replies, order.len());
}

/// A tick in which nothing fails writes what every script reported.
///
/// Where every script is advanced and reports sixteen numbers, and the store
/// takes them all, the tick records no failure, and what has been written is,
/// for each entity in visiting order, the transform that its script reported,
/// under that entity.
pub proof fn lemma_tick_without_failure(order: Seq<EntityId>, replies: spec_fn(EntityId) -> Replies)
    requires
        forall|i: int| 0 <= i < order.len() ==> (#[trigger] replies(order[i])).failure() is None,
    ensures
        PassState::start(order).run(tick_events(order, replies)).failures == Seq::<
            Failure,
        >::empty(),
        PassState::start(order).writes(tick_events(order, replies)) == order.map_values(
            |entity: EntityId| (entity, Transform::of(replies(entity).elements->Some_0@)),
        ),
    decreases order.len(),
{
    lemma_tick_outcome(order, replies);
    if order.len() > 0 {
        let rest = order.drop_last();
        lemma_tick_without_failure(rest, replies);
        lemma_tick_outcome(rest, replies);
        assert(tick_writes(order, replies) =~= order.map_values(
            |entity: EntityId| (entity, Transform::of(replies(entity).elements->Some_0@)),
        ));
    }
}

} // verus!
