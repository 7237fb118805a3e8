//! The rules of one tick.
//!
//! A pass visits the attached entities in order. For each it asks, one
//! request at a time, for the script to be advanced, for the script's
//! transform, and for the transform to be written to the store. What it asks
//! next depends only on the answers it has been given, so the rules are a
//! transition function: [`PassState::after`]. Whoever drives a pass performs
//! each [`Action`] and hands back the [`Event`] that answers it.

use vstd::prelude::*;
use crate::entity::{ascending, EntityId};
use crate::report::{
    failed_entities_of, failures_within, lemma_failed_entities, Failure, FailureKind, TickReport,
};
use crate::transform::{Transform, TRANSFORM_LEN};

verus! {

/// What a pass asks of its driver.
#[derive(Clone, Copy, Debug, PartialEq, Eq)]
pub enum Action {
    /// Advance the script of this entity by one step.
    Advance(EntityId),
    /// Ask the script of this entity for its transform.
    Query(EntityId),
    /// Write this transform to the store, under this entity.
    Write(EntityId, Transform),
    /// Nothing: every entity has been dealt with.
    Done,
}

/// The answer to an [`Action`].
#[derive(Debug, PartialEq, Eq)]
pub enum Event {
    /// The script was advanced.
    Stepped,
    /// The script could not be advanced.
    StepFailed,
    /// The script reported these numbers as its transform.
    Elements(Vec<u32>),
    /// The script reported no numbers at all.
    NoElements,
    /// The store took the transform.
    Stored,
    /// The store did not take the transform.
    StoreFailed,
}

/// How far the entity under the cursor has come.
#[derive(Clone, Copy, Debug, PartialEq, Eq)]
pub enum Stage {
    /// Its script is still to be advanced.
    Advance,
    /// Its script was advanced and is still to be queried.
    Query,
    /// Its script reported this transform, which is still to be written.
    Write(Transform),
}

/// A pass, as the rules see it.
pub struct PassState {
    /// The entities to visit, in the order of the visit.
    pub order: Seq<EntityId>,
    /// How many of them have been dealt with.
    pub cursor: nat,
    /// How far the next one has come.
    pub stage: Stage,
    /// How many of them have had their transform written.
    pub written: nat,
    /// The failures so far.
    pub failures: Seq<Failure>,
}

impl PassState {
    /// The pass over `order` before anything has been asked.
    pub open spec fn start(order: Seq<EntityId>) -> PassState {
        PassState { order, cursor: 0, stage: Stage::Advance, written: 0, failures: Seq::empty() }
    }

    /// Every entity has been dealt with.
    pub open spec fn done(self) -> bool {
        self.cursor >= self.order.len()
    }

    /// What the pass is waiting for.
    pub open spec fn pending(self) -> Action {
        if self.done() {
            Action::Done
        } else {
            let entity = self.order[self.cursor as int];
            match self.stage {
                Stage::Advance => Action::Advance(entity),
                Stage::Query => Action::Query(entity),
                Stage::Write(transform) => Action::Write(entity, transform),
            }
        }
    }

    /// `event` answers what the pass is waiting for.
    pub open spec fn expects(self, event: Event) -> bool {
        match (self.pending(), event) {
            (Action::Advance(_), Event::Stepped) => true,
            (Action::Advance(_), Event::StepFailed) => true,
            (Action::Query(_), Event::Elements(_)) => true,
            (Action::Query(_), Event::NoElements) => true,
            (Action::Write(_, _), Event::Stored) => true,
            (Action::Write(_, _), Event::StoreFailed) => true,
            _ => false,
        }
    }

    /// The pass once the entity under the cursor has been dealt with, having
    /// failed in the given way or, its transform written, not at all.
    pub open spec fn settle(self, failure: Option<FailureKind>) -> PassState {
        PassState {
            order: self.order,
            cursor: self.cursor + 1,
            stage: Stage::Advance,
            written: if failure is None {
                self.written + 1
            } else {
                self.written
            },
            failures: match failure {
                Some(kind) => self.failures.push(
                    Failure { entity: self.order[self.cursor as int], kind },
                ),
                None => self.failures,
            },
        }
    }

    /// The pass once `event` has been handed to it.
    ///
    /// A script that could not be advanced is not queried. Numbers are written
    /// only if there are exactly sixteen of them, and then as they are. Every
    /// failure settles its entity and the pass moves on to the next. An event
    /// that does not answer what the pass is waiting for changes nothing.
    pub open spec fn after(self, event: Event) -> PassState {
        match (self.pending(), event) {
            (Action::Advance(_), Event::Stepped) => PassState { stage: Stage::Query, ..self },
            (Action::Advance(_), Event::StepFailed) => self.settle(
                Some(FailureKind::ScriptStep),
            ),
            (Action::Query(_), Event::Elements(raw)) => if raw@.len() == TRANSFORM_LEN {
                PassState { stage: Stage::Write(Transform::of(raw@)), ..self }
            } else {
                self.settle(Some(FailureKind::MalformedTransform))
            },
            (Action::Query(_), Event::NoElements) => self.settle(
                Some(FailureKind::MalformedTransform),
            ),
            (Action::Write(_, _), Event::Stored) => self.settle(None),
            (Action::Write(_, _), Event::StoreFailed) => self.settle(
                Some(FailureKind::StoreWrite),
            ),
            _ => self,
        }
    }

    /// The pass once `events` have been handed to it, one after the other.
    pub open spec fn run(self, events: Seq<Event>) -> PassState
        decreases events.len(),
    {
        if events.len() == 0 {
            self
        } else {
            self.run(events.drop_last()).after(events.last())
        }
    }

    /// The number of answers that the pass still needs, at most.
    pub open spec fn remaining(self) -> nat {
        if self.done() {
            0
        } else {
            let later = 3 * (self.order.len() - self.cursor - 1);
            (later + match self.stage {
                Stage::Advance => 3int,
                Stage::Query => 2int,
                Stage::Write(_) => 1int,
            }) as nat
        }
    }

    /// What holds of every pass: the entities are in visiting order, the
    /// cursor is among them or just behind them, every entity that has been
    /// dealt with has had its transform written or has failed, and the
    /// failures name such entities, in visiting order.
    pub open spec fn wf(self) -> bool {
        &&& ascending(self.order)
        &&& self.cursor <= self.order.len()
        &&& self.done() ==> self.stage is Advance
        &&& self.written + self.failures.len() == self.cursor
        &&& failures_within(self.failures, self.order.take(self.cursor as int))
    }

    /// Settling the entity under the cursor keeps a pass well-formed.
    pub proof fn lemma_settle(self, failure: Option<FailureKind>)
        requires
            self.wf(),
            !self.done(),
        ensures
            self.settle(failure).wf(),
    {
        let next = self.settle(failure);
        let c = self.cursor as int;
        let before = self.order.take(c);
        let upto = self.order.take(c + 1);
        assert forall|i: int| 0 <= i < next.failures.len() implies upto.contains(
            #[trigger] next.failures[i].entity,
        ) by {
            if i < self.failures.len() {
                // An earlier failure: its entity was dealt with before.
                let e = self.failures[i].entity;
                let k = choose|k: int| 0 <= k < before.len() && before[k] == e;
                assert(upto[k] == e);
            } else {
                // The new failure: its entity has just been dealt with.
                assert(next.failures[i].entity == upto[c]);
            }
        }
        assert forall|i: int, j: int| 0 <= i < j < next.failures.len() implies next.failures[i].entity
            < next.failures[j].entity by {
            if j == self.failures.len() {
                // Every earlier failure is of an entity before the cursor.
                let e = self.failures[i].entity;
                let k = choose|k: int| 0 <= k < before.len() && before[k] == e;
                assert(self.order[k] < self.order[c]);
            }
        }
    }

    /// Handing over one event keeps a pass well-formed and on its entities,
    /// never moves the cursor back, and, if the event answers what the pass
    /// was waiting for, brings the pass one answer closer to its end.
    pub proof fn lemma_after(self, event: Event)
        requires
            self.wf(),
        ensures
            self.after(event).wf(),
            self.after(event).order == self.order,
            self.after(event).cursor >= self.cursor,
            self.expects(event) ==> self.after(event).remaining() < self.remaining(),
            !self.expects(event) ==> self.after(event) == self,
    {
        if !self.done() {
            // However the event settles the entity, if it does.
            assert forall|failure: Option<FailureKind>| #[trigger] self.settle(failure).wf() by {
                self.lemma_settle(failure);
            }
        }
    }

    /// Handing over any events keeps a pass well-formed and on its entities,
    /// and never moves the cursor back.
    pub proof fn lemma_run(self, events: Seq<Event>)
        requires
            self.wf(),
        ensures
            self.run(events).wf(),
            self.run(events).order == self.order,
            self.run(events).cursor >= self.cursor,
        decreases events.len(),
    {
        if events.len() > 0 {
            self.lemma_run(events.drop_last());
            self.run(events.drop_last()).lemma_after(events.last());
        }
    }

    /// Once the cursor has passed an entity, the pass asks nothing more about
    /// it, whatever it is told from then on.
    pub proof fn lemma_settled_entity_is_left_alone(self, index: int, events: Seq<Event>)
        requires
            self.wf(),
            0 <= index < self.cursor,
        ensures
            !self.run(events).pending().concerns(self.order[index]),
    {
        self.lemma_run(events);
    }
}

/// One tick in progress: which entity is next, what is to be done for it, and
/// who has failed so far.
///
/// A pass performs nothing itself. Its driver asks it what to do with
/// [`TickPass::pending`], does it, and hands the answer to
/// [`TickPass::resolve`], until the pass is done.
pub struct TickPass {
    order: Vec<EntityId>,
    cursor: usize,
    stage: Stage,
    written: usize,
    failures: Vec<Failure>,
}

impl View for TickPass {
    type V = PassState;

    closed spec fn view(&self) -> PassState {
        PassState {
            order: self.order@,
            cursor: self.cursor as nat,
            stage: self.stage,
            written: self.written as nat,
            failures: self.failures@,
        }
    }
}

impl TickPass {
    #[verifier::type_invariant]
    spec fn inv(self) -> bool {
        self@.wf()
    }

    /// Starts a pass over `order`.
    pub(crate) fn begin(order: Vec<EntityId>) -> (pass: TickPass)
        requires
            ascending(order@),
        ensures
            pass@ == PassState::start(order@),
            pass@.wf(),
    {
        TickPass { order, cursor: 0, stage: Stage::Advance, written: 0, failures: Vec::new() }
    }

    /// Every entity has been dealt with.
    pub fn is_done(&self) -> (done: bool)
        ensures
            done == self@.done(),
    {
        self.cursor >= self.order.len()
    }

    /// How many entities have been dealt with. While the pass is not done,
    /// this is also the place, in visiting order, of the entity that the pass
    /// is asking about.
    pub fn position(&self) -> (cursor: usize)
        ensures
            cursor == self@.cursor,
            cursor <= self@.order.len(),
    {
        proof {
            use_type_invariant(self);
        }
        self.cursor
    }

    /// What the driver is to do next.
    pub fn pending(&self) -> (action: Action)
        ensures
            action == self@.pending(),
    {
        if self.cursor >= self.order.len() {
            Action::Done
        } else {
            let entity = self.order[self.cursor];
            match self.stage {
                Stage::Advance => Action::Advance(entity),
                Stage::Query => Action::Query(entity),
                Stage::Write(transform) => Action::Write(entity, transform),
            }
        }
    }

    /// The same pass with the entity under the cursor at `stage`.
    fn at_stage(self, stage: Stage) -> (next: TickPass)
        requires
            !self@.done(),
        ensures
            next@ == (PassState { stage, ..self@ }),
    {
        proof {
            use_type_invariant(&self);
        }
        TickPass {
            order: self.order,
            cursor: self.cursor,
            stage,
            written: self.written,
            failures: self.failures,
        }
    }

    /// Records the failure, if there is one, and moves on to the next entity.
    fn settle(self, failure: Option<FailureKind>) -> (next: TickPass)
        requires
            !self@.done(),
        ensures
            next@ == self@.settle(failure),
    {
        proof {
            use_type_invariant(&self);
            self@.lemma_settle(failure);
        }
        let TickPass { order, cursor, stage: _, mut written, mut failures } = self;
        assert(written <= cursor < order.len());
        match failure {
            Some(kind) => {
                failures.push(Failure { entity: order[cursor], kind });
            },
            None => {
                written = written + 1;
            },
        }
        TickPass { order, cursor: cursor + 1, stage: Stage::Advance, written, failures }
    }

    /// Takes the answer to the pending action and moves on.
    ///
    /// An event that does not answer the pending action is dropped: the pass
    /// that comes back is the one that was handed in.
    pub fn resolve(self, event: Event) -> (next: TickPass)
        ensures
            next@ == self@.after(event),
            next@.wf(),
    {
        proof {
            use_type_invariant(&self);
            self@.lemma_after(event);
        }
        if self.is_done() {
            return self;
        }
        match (self.stage, event) {
            (Stage::Advance, Event::Stepped) => self.at_stage(Stage::Query),
            (Stage::Advance, Event::StepFailed) => self.settle(Some(FailureKind::ScriptStep)),
            (Stage::Query, Event::Elements(raw)) => match Transform::from_elements(&raw) {
                Some(transform) => self.at_stage(Stage::Write(transform)),
                None => self.settle(Some(FailureKind::MalformedTransform)),
            },
            (Stage::Query, Event::NoElements) => self.settle(
                Some(FailureKind::MalformedTransform),
            ),
            (Stage::Write(_), Event::Stored) => self.settle(None),
            (Stage::Write(_), Event::StoreFailed) => self.settle(Some(FailureKind::StoreWrite)),
            _ => self,
        }
    }

    /// Ends the pass and reports what it has come to: how many transforms
    /// were written, and the failures.
    ///
    /// If the pass is done, this is the report of the whole tick.
    pub fn into_report(self) -> (report: TickReport)
        ensures
            report.written == self@.written,
            report.failures@ == self@.failures,
    {
        TickReport { written: self.written, failures: self.failures }
    }
}

impl Action {
    /// The action asks something about `entity`.
    pub open spec fn concerns(self, entity: EntityId) -> bool {
        match self {
            Action::Advance(e) => e == entity,
            Action::Query(e) => e == entity,
            Action::Write(e, _) => e == entity,
            Action::Done => false,
        }
    }
}

impl Event {
    /// The event is a script's answer to a query, and the answer is no
    /// transform: some other number of elements than sixteen, or none at all.
    pub open spec fn is_malformed(self) -> bool {
        match self {
            Event::Elements(raw) => raw@.len() != TRANSFORM_LEN,
            Event::NoElements => true,
            _ => false,
        }
    }
}

impl PassState {
    /// This pass is `before` after it has given up on the entity under its
    /// cursor for a failure of the given kind.
    ///
    /// The failure is recorded and stays recorded, whatever the pass is told
    /// from then on (`later`); if it is the script's own, the entity is among
    /// the failed entities to the end. The pass asks nothing more about that
    /// entity and goes on with the next one, if there is one.
    pub open spec fn gave_up_on(self, before: PassState, kind: FailureKind, later: Seq<Event>) -> bool {
        let entity = before.order[before.cursor as int];
        &&& self.failures == before.failures.push(Failure { entity, kind })
        &&& self.pending() == if before.cursor + 1 < before.order.len() {
            Action::Advance(before.order[before.cursor as int + 1])
        } else {
            Action::Done
        }
        &&& !self.run(later).pending().concerns(entity)
        &&& before.failures.push(Failure { entity, kind }).is_prefix_of(self.run(later).failures)
        &&& !(kind is StoreWrite) ==> failed_entities_of(self.run(later).failures).contains(entity)
    }

    /// Handing over any events only adds to the failures.
    pub proof fn lemma_failures_are_kept(self, events: Seq<Event>)
        ensures
            self.failures.is_prefix_of(self.run(events).failures),
        decreases events.len(),
    {
        if events.len() > 0 {
            self.lemma_failures_are_kept(events.drop_last());
        }
    }

    /// Giving up on the entity under the cursor is final.
    proof fn lemma_gave_up(self, event: Event, kind: FailureKind, later: Seq<Event>)
        requires
            self.wf(),
            !self.done(),
            self.after(event) == self.settle(Some(kind)),
        ensures
            self.after(event).gave_up_on(self, kind, later),
    {
        let next = self.after(event);
        let entity = self.order[self.cursor as int];
        let failure = Failure { entity, kind };
        self.lemma_after(event);
        next.lemma_settled_entity_is_left_alone(self.cursor as int, later);
        next.lemma_failures_are_kept(later);
        if failure.of_script() {
            let end = next.run(later).failures;
            let at = self.failures.len() as int;
            assert(next.failures[at] == failure);
            lemma_failed_entities(end, entity);
        }
    }

    /// A script that cannot be advanced costs its entity this tick's transform
    /// and nothing else.
    ///
    /// The entity is recorded as failed, and stays so to the end of the pass.
    /// Its script is not queried and nothing is written for it, whatever
    /// happens later in the pass. The pass goes on with the next entity.
    pub proof fn lemma_failed_step_is_isolated(self, later: Seq<Event>)
        requires
            self.wf(),
            self.pending() is Advance,
        ensures
            self.after(Event::StepFailed).gave_up_on(self, FailureKind::ScriptStep, later),
    {
        self.lemma_gave_up(Event::StepFailed, FailureKind::ScriptStep, later);
    }

    /// A script that reports anything but sixteen numbers costs its entity
    /// this tick's transform and nothing else.
    ///
    /// The entity is recorded as failed, and stays so to the end of the pass.
    /// Nothing is written for it, whatever happens later in the pass. The pass
    /// goes on with the next entity.
    pub proof fn lemma_malformed_transform_is_isolated(self, answer: Event, later: Seq<Event>)
        requires
            self.wf(),
            self.pending() is Query,
            answer.is_malformed(),
        ensures
            self.after(answer).gave_up_on(self, FailureKind::MalformedTransform, later),
    {
        self.lemma_gave_up(answer, FailureKind::MalformedTransform, later);
    }

    /// Whatever a pass asks to be written is what the script of that entity
    /// has just reported: all sixteen numbers, in the order reported.
    pub proof fn lemma_write_is_what_was_reported(self, event: Event)
        requires
            self.wf(),
            !(self.pending() is Write),
            self.after(event).pending() is Write,
        ensures
            self.pending() is Query,
            event is Elements,
            event->Elements_0@.len() == TRANSFORM_LEN,
            self.after(event).pending() == Action::Write(
                self.order[self.cursor as int],
                Transform::of(event->Elements_0@),
            ),
            self.after(event).pending()->Write_1@ == event->Elements_0@,
    {
        Transform::lemma_of_elements(event->Elements_0@);
    }

    /// A pass over no entities is over before it begins and records no
    /// failure, whatever it is told.
    pub proof fn lemma_empty_pass(events: Seq<Event>)
        ensures
            PassState::start(Seq::empty()).run(events) == PassState::start(Seq::empty()),
            PassState::start(Seq::empty()).pending() == Action::Done,
            PassState::start(Seq::empty()).failures.len() == 0,
        decreases events.len(),
    {
        if events.len() > 0 {
            Self::lemma_empty_pass(events.drop_last());
        }
    }
}

} // verus!
