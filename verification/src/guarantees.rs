//! What holds of every engine, whatever its consumers and its transition
//! function do.

use vstd::prelude::*;
use crate::engine::Engine;
use crate::event_machine::{
    ended, halting, reaches, stepped, Consumer, Event, EventState, Run,
};
use crate::model::EngineView;
use crate::priority::{strictly_before, ties, ConsumerPriority};

verus! {

impl<E: Event, S: EventState<E>, K: Consumer<E, S, P>, P: ConsumerPriority> EngineView<E, S, K, P> {
    /// Events of the current state that are enqueued one after the other,
    /// with no dequeue between them, come back from the next dequeues in the
    /// reverse order, and the engine is then what it was before they were
    /// enqueued.
    pub proof fn lemma_last_in_first_out(self, events: Seq<E>)
        requires
            self.wf(),
            forall|i: int| 0 <= i < events.len() ==> S::state_of(&#[trigger] events[i]) == self.state,
        ensures
            self.enqueue_all(events).dequeues(events.len()) == (events.reverse(), self),
        decreases events.len(),
    {
        if events.len() == 0 {
            self.lemma_enqueue_all_empty();
            assert(events =~= Seq::empty());
            assert(events.reverse() =~= Seq::<E>::empty());
        } else {
            let older = events.drop_last();
            let newest = events.last();
            let before = self.enqueue_all(older);
            let full = self.enqueue_all(events);
            assert(events =~= older.push(newest));
            self.lemma_enqueue_all_push(older, newest);
            assert(full == before.enqueue(newest));
            assert(full.state == self.state);
            assert(full.dequeue().0 == Some(newest));
            assert(before.queues[self.state].push(newest).drop_last() =~= before.queues[self.state]);
            assert(full.dequeue().1.queues =~= before.queues);
            assert(full.dequeue().1 == before);
            self.lemma_last_in_first_out(older);
            assert(seq![newest] + older.reverse() =~= events.reverse());
        }
    }

    /// A consumer is invoked on an event exactly if it declared the state of
    /// that event.
    pub proof fn lemma_interest_isolation(self, event: E, index: usize)
        requires
            self.wf(),
        ensures
            self.prioritized(event).contains(index) <==> (index < self.consumers.len()
                && self.consumers[index as int].interests().contains(S::state_of(&event))),
    {
        let state = S::state_of(&event);
        self.lemma_prioritized_is_sorted(event, Seq::empty());
        self.prioritized(event).to_multiset_ensures();
        self.eligible(state).to_multiset_ensures();
        assert(self.prioritized(event).to_multiset().count(index) == self.eligible(
            state,
        ).to_multiset().count(index));
        Self::lemma_eligible_among_contains(self.consumers, state, index);
    }

    /// No consumer is invoked twice on one event.
    pub proof fn lemma_invoked_once(self, event: E)
        requires
            self.wf(),
        ensures
            self.prioritized(event).no_duplicates(),
    {
        self.lemma_prioritized_is_sorted(event, Seq::empty());
    }

    /// What the order of invocation owes to two consumers, `first` invoked
    /// before `second`: the priority of `first` is not after that of
    /// `second`; where the two tie, `first` was registered earlier; where
    /// they do not, the priority of `first` is strictly before.
    pub open spec fn in_order(self, event: E, first: usize, second: usize) -> bool {
        let key_first = Self::priority_of(self.consumers[first as int], event);
        let key_second = Self::priority_of(self.consumers[second as int], event);
        &&& key_first.not_after(&key_second)
        &&& ties(&key_first, &key_second) ==> first < second
        &&& !ties(&key_first, &key_second) ==> strictly_before(&key_first, &key_second)
    }

    /// Consumers are invoked in ascending order of priority, and in the order
    /// of registration where priorities tie. Where no two of them tie, the
    /// order is strictly ascending.
    pub proof fn lemma_priority_ordering(self, event: E)
        requires
            self.wf(),
        ensures
            forall|i: int, j: int|
                0 <= i < j < self.prioritized(event).len() ==> #[trigger] self.in_order(
                    event,
                    self.prioritized(event)[i],
                    self.prioritized(event)[j],
                ),
    {
        self.lemma_prioritized_is_sorted(event, Seq::empty());
        let order = self.prioritized(event);
        let before = self.goes_before(event);
        assert(order.no_duplicates());
        assert forall|i: int, j: int| 0 <= i < j < order.len() implies #[trigger] self.in_order(
            event,
            order[i],
            order[j],
        ) by {
            assert(before(order[i], order[j]));
        }
    }

    /// One invocation leaves the state alone, removes no consumer and no
    /// event, and changes no consumer's declared states.
    pub proof fn lemma_invoked_grows(self, event: E, index: usize, post: Self)
        requires
            self.invoked(event, index, post),
        ensures
            post.state == self.state,
            self.consumers.len() <= post.consumers.len(),
            forall|i: int|
                0 <= i < self.consumers.len() ==> (#[trigger] post.consumers[i]).interests()
                    == self.consumers[i].interests(),
            forall|state: S| self.queue(state).is_prefix_of(#[trigger] post.queue(state)),
    {
        let (after, emitted, spawned) = choose|after: K, emitted: Seq<E>, spawned: Seq<K>|
            {
                &&& self.consumers[index as int].reaction(&event, &after, emitted, spawned)
                &&& after.interests() == self.consumers[index as int].interests()
                &&& post == #[trigger] self.absorbed(index, after, emitted, spawned)
            };
        assert(post == self.absorbed(index, after, emitted, spawned));
    }

    /// The registry only grows: a pass leaves the state alone, removes no
    /// consumer and no event, and changes no consumer's declared states.
    pub proof fn lemma_pass_grows(self, event: E, order: Seq<usize>, post: Self)
        requires
            self.pass(event, order, post),
        ensures
            post.state == self.state,
            self.consumers.len() <= post.consumers.len(),
            forall|i: int|
                0 <= i < self.consumers.len() ==> (#[trigger] post.consumers[i]).interests()
                    == self.consumers[i].interests(),
            forall|state: S| self.queue(state).is_prefix_of(#[trigger] post.queue(state)),
        decreases order.len(),
    {
        if order.len() > 0 {
            let mid = choose|mid: Self|
                {
                    &&& self.pass(event, order.drop_last(), mid)
                    &&& #[trigger] mid.invoked(event, order.last(), post)
                };
            self.lemma_pass_grows(event, order.drop_last(), mid);
            mid.lemma_invoked_grows(event, order.last(), post);
            assert forall|state: S| self.queue(state).is_prefix_of(#[trigger] post.queue(state)) by {
                assert(self.queue(state).is_prefix_of(mid.queue(state)));
                assert(mid.queue(state).is_prefix_of(post.queue(state)));
            }
        }
    }

    /// A consumer spawned during a pass is not invoked in that pass, and from
    /// then on it is invoked on every event whose state it declared, and on
    /// no other.
    pub proof fn lemma_dynamic_growth(self, event: E, post: Self, index: usize, later: E)
        requires
            self.wf(),
            self.pass(event, self.prioritized(event), post),
            self.consumers.len() <= index < post.consumers.len(),
        ensures
            !self.prioritized(event).contains(index),
            post.prioritized(later).contains(index) <==> post.consumers[index as int].interests().contains(
                S::state_of(&later),
            ),
    {
        self.lemma_interest_isolation(event, index);
        self.lemma_pass_wf(event, self.prioritized(event), post);
        post.lemma_interest_isolation(later, index);
    }

    /// Every consumer reacts in one way only: the consumer and the event fix
    /// what it turns into, what it emits and what it spawns.
    pub open spec fn reactions_fixed() -> bool {
        forall|consumer: K, event: E, one: K, emitted: Seq<E>, spawned: Seq<K>, other: K, emitted_other: Seq<
            E,
        >, spawned_other: Seq<K>|
            #[trigger] consumer.reaction(&event, &one, emitted, spawned)
                && #[trigger] consumer.reaction(&event, &other, emitted_other, spawned_other) ==> {
                &&& one == other
                &&& emitted == emitted_other
                &&& spawned == spawned_other
            }
    }

    /// Where every consumer reacts in one way only, an invocation has one
    /// outcome.
    pub proof fn lemma_invoked_is_determined(self, event: E, index: usize, one: Self, other: Self)
        requires
            Self::reactions_fixed(),
            self.invoked(event, index, one),
            self.invoked(event, index, other),
        ensures
            one == other,
    {
        let consumer = self.consumers[index as int];
        let (after, emitted, spawned) = choose|after: K, emitted: Seq<E>, spawned: Seq<K>|
            {
                &&& consumer.reaction(&event, &after, emitted, spawned)
                &&& after.interests() == consumer.interests()
                &&& one == #[trigger] self.absorbed(index, after, emitted, spawned)
            };
        let (after_other, emitted_other, spawned_other) = choose|
            after: K,
            emitted: Seq<E>,
            spawned: Seq<K>,
        |
            {
                &&& consumer.reaction(&event, &after, emitted, spawned)
                &&& after.interests() == consumer.interests()
                &&& other == #[trigger] self.absorbed(index, after, emitted, spawned)
            };
        assert(consumer.reaction(&event, &after, emitted, spawned));
        assert(consumer.reaction(&event, &after_other, emitted_other, spawned_other));
    }

    /// Where every consumer reacts in one way only, a pass has one outcome.
    pub proof fn lemma_pass_is_determined(self, event: E, order: Seq<usize>, one: Self, other: Self)
        requires
            Self::reactions_fixed(),
            self.pass(event, order, one),
            self.pass(event, order, other),
        ensures
            one == other,
        decreases order.len(),
    {
        if order.len() > 0 {
            let mid = choose|mid: Self|
                {
                    &&& self.pass(event, order.drop_last(), mid)
                    &&& #[trigger] mid.invoked(event, order.last(), one)
                };
            let mid_other = choose|mid: Self|
                {
                    &&& self.pass(event, order.drop_last(), mid)
                    &&& #[trigger] mid.invoked(event, order.last(), other)
                };
            self.lemma_pass_is_determined(event, order.drop_last(), mid, mid_other);
            mid.lemma_invoked_is_determined(event, order.last(), one, other);
        }
    }

    /// A pass ends in a well-formed engine.
    pub proof fn lemma_pass_wf(self, event: E, order: Seq<usize>, post: Self)
        requires
            self.wf(),
            self.pass(event, order, post),
        ensures
            post.wf(),
    {
        if order.len() > 0 {
            let mid = choose|mid: Self|
                {
                    &&& self.pass(event, order.drop_last(), mid)
                    &&& #[trigger] mid.invoked(event, order.last(), post)
                };
        }
    }
}

/// The registry is append-only for as long as the machine runs: no step
/// removes a consumer or changes what a consumer declared.
pub proof fn lemma_registry_append_only<E, S, K, F, P>(
    transition: F,
    pre: EngineView<E, S, K, P>,
    post: EngineView<E, S, K, P>,
    steps: nat,
) where
    E: Event,
    S: EventState<E>,
    K: Consumer<E, S, P>,
    P: ConsumerPriority,
    F: Fn(&S, &Engine<E, S, K, P>) -> (Option<S>, Vec<E>),

    requires
        reaches(transition, pre, post, steps),
    ensures
        pre.consumers.len() <= post.consumers.len(),
        forall|i: int|
            0 <= i < pre.consumers.len() ==> (#[trigger] post.consumers[i]).interests()
                == pre.consumers[i].interests(),
    decreases steps,
{
    if steps > 0 {
        let mid = choose|mid: EngineView<E, S, K, P>|
            {
                &&& reaches(transition, pre, mid, (steps - 1) as nat)
                &&& #[trigger] stepped(transition, mid, post)
            };
        lemma_registry_append_only(transition, pre, mid, (steps - 1) as nat);
        if mid.drained(post) {
            let event = mid.dequeue().0.unwrap();
            let taken = mid.dequeue().1;
            taken.lemma_pass_grows(event, taken.prioritized(event), post);
        }
    }
}

/// A machine halts only where its transition function names no next state:
/// in a state in which the transition function never does, it cannot halt.
pub proof fn lemma_halts_only_without_next_state<E, S, K, F, P>(
    transition: F,
    view: EngineView<E, S, K, P>,
) where
    E: Event,
    S: EventState<E>,
    K: Consumer<E, S, P>,
    P: ConsumerPriority,
    F: Fn(&S, &Engine<E, S, K, P>) -> (Option<S>, Vec<E>),

    requires
        forall|engine: Engine<E, S, K, P>, seeds: Vec<E>|
            !#[trigger] call_ensures(transition, (&view.state, &engine), (None::<S>, seeds)),
    ensures
        !halting(transition, view),
{
}

/// The transition function decides in one way only: the state and what the
/// engine is fix the next state and the seed events.
pub open spec fn transition_fixed<E, S, K, F, P>(transition: F) -> bool where
    E: Event,
    S: EventState<E>,
    K: Consumer<E, S, P>,
    P: ConsumerPriority,
    F: Fn(&S, &Engine<E, S, K, P>) -> (Option<S>, Vec<E>),
 {
    forall|
        state: S,
        engine: Engine<E, S, K, P>,
        other: Engine<E, S, K, P>,
        decided: (Option<S>, Vec<E>),
        decided_other: (Option<S>, Vec<E>),
    |
        engine@ == other@ && #[trigger] call_ensures(transition, (&state, &engine), decided)
            && #[trigger] call_ensures(transition, (&state, &other), decided_other) ==> {
            &&& decided.0 == decided_other.0
            &&& decided.1@ == decided_other.1@
        }
}

/// Where consumers and transition function act in one way only, a step has
/// one outcome, and a machine that may halt can take no step.
pub proof fn lemma_step_is_determined<E, S, K, F, P>(
    transition: F,
    pre: EngineView<E, S, K, P>,
    one: EngineView<E, S, K, P>,
    other: EngineView<E, S, K, P>,
) where
    E: Event,
    S: EventState<E>,
    K: Consumer<E, S, P>,
    P: ConsumerPriority,
    F: Fn(&S, &Engine<E, S, K, P>) -> (Option<S>, Vec<E>),

    requires
        EngineView::<E, S, K, P>::reactions_fixed(),
        transition_fixed::<E, S, K, F, P>(transition),
        stepped(transition, pre, one),
    ensures
        stepped(transition, pre, other) ==> one == other,
        !halting(transition, pre),
{
    if pre.drained(one) {
        if stepped(transition, pre, other) {
            let event = pre.dequeue().0.unwrap();
            let taken = pre.dequeue().1;
            taken.lemma_pass_is_determined(event, taken.prioritized(event), one, other);
        }
    } else {
        let (engine, next, seeds) = choose|engine: Engine<E, S, K, P>, next: S, seeds: Vec<E>|
            {
                &&& engine.wf()
                &&& engine@ == pre
                &&& #[trigger] call_ensures(transition, (&pre.state, &engine), (Some(next), seeds))
                &&& one == pre.moved_to(next).enqueue_all(seeds@)
            };
        if stepped(transition, pre, other) {
            let (engine_other, next_other, seeds_other) = choose|
                engine: Engine<E, S, K, P>,
                next: S,
                seeds: Vec<E>,
            |
                {
                    &&& engine.wf()
                    &&& engine@ == pre
                    &&& #[trigger] call_ensures(
                        transition,
                        (&pre.state, &engine),
                        (Some(next), seeds),
                    )
                    &&& other == pre.moved_to(next).enqueue_all(seeds@)
                };
            assert(call_ensures(transition, (&pre.state, &engine), (Some(next), seeds)));
            assert(call_ensures(
                transition,
                (&pre.state, &engine_other),
                (Some(next_other), seeds_other),
            ));
        }
        if halting(transition, pre) {
            let (engine_other, seeds_other) = choose|engine: Engine<E, S, K, P>, seeds: Vec<E>|
                {
                    &&& engine.wf()
                    &&& engine@ == pre
                    &&& #[trigger] call_ensures(
                        transition,
                        (&pre.state, &engine),
                        (None::<S>, seeds),
                    )
                };
            assert(call_ensures(transition, (&pre.state, &engine), (Some(next), seeds)));
            assert(call_ensures(transition, (&pre.state, &engine_other), (None::<S>, seeds_other)));
        }
    }
}

/// Equal beginnings give equal ends: where consumers and transition function
/// act in one way only, the engine after a number of steps is fixed by the
/// engine before them.
pub proof fn lemma_run_is_determined<E, S, K, F, P>(
    transition: F,
    pre: EngineView<E, S, K, P>,
    one: EngineView<E, S, K, P>,
    other: EngineView<E, S, K, P>,
    steps: nat,
) where
    E: Event,
    S: EventState<E>,
    K: Consumer<E, S, P>,
    P: ConsumerPriority,
    F: Fn(&S, &Engine<E, S, K, P>) -> (Option<S>, Vec<E>),

    requires
        EngineView::<E, S, K, P>::reactions_fixed(),
        transition_fixed::<E, S, K, F, P>(transition),
        reaches(transition, pre, one, steps),
        reaches(transition, pre, other, steps),
    ensures
        one == other,
    decreases steps,
{
    if steps > 0 {
        let mid = choose|mid: EngineView<E, S, K, P>|
            {
                &&& reaches(transition, pre, mid, (steps - 1) as nat)
                &&& #[trigger] stepped(transition, mid, one)
            };
        let mid_other = choose|mid: EngineView<E, S, K, P>|
            {
                &&& reaches(transition, pre, mid, (steps - 1) as nat)
                &&& #[trigger] stepped(transition, mid, other)
            };
        lemma_run_is_determined(transition, pre, mid, mid_other, (steps - 1) as nat);
        lemma_step_is_determined(transition, mid, one, other);
    }
}

/// Steps can be told apart: what is reached in a number of steps is reached
/// by way of what is reached in fewer.
pub proof fn lemma_reaches_by_way_of<E, S, K, F, P>(
    transition: F,
    pre: EngineView<E, S, K, P>,
    post: EngineView<E, S, K, P>,
    steps: nat,
    first: nat,
) -> (mid: EngineView<E, S, K, P>) where
    E: Event,
    S: EventState<E>,
    K: Consumer<E, S, P>,
    P: ConsumerPriority,
    F: Fn(&S, &Engine<E, S, K, P>) -> (Option<S>, Vec<E>),

    requires
        reaches(transition, pre, post, steps),
        first <= steps,
    ensures
        reaches(transition, pre, mid, first),
        reaches(transition, mid, post, (steps - first) as nat),
    decreases steps,
{
    if first == steps {
        post
    } else {
        let last = choose|last: EngineView<E, S, K, P>|
            {
                &&& reaches(transition, pre, last, (steps - 1) as nat)
                &&& #[trigger] stepped(transition, last, post)
            };
        let mid = lemma_reaches_by_way_of(transition, pre, last, (steps - 1) as nat, first);
        assert(reaches(transition, mid, last, (steps - first - 1) as nat));
        assert(stepped(transition, last, post));
        mid
    }
}

/// Where consumers and transition function act in one way only, a machine
/// that may halt after a number of steps has gone as far as it can go.
pub proof fn lemma_halt_is_determined<E, S, K, F, P>(
    transition: F,
    pre: EngineView<E, S, K, P>,
    halted: EngineView<E, S, K, P>,
    steps: nat,
    other: EngineView<E, S, K, P>,
    steps_other: nat,
) where
    E: Event,
    S: EventState<E>,
    K: Consumer<E, S, P>,
    P: ConsumerPriority,
    F: Fn(&S, &Engine<E, S, K, P>) -> (Option<S>, Vec<E>),

    requires
        EngineView::<E, S, K, P>::reactions_fixed(),
        transition_fixed::<E, S, K, F, P>(transition),
        reaches(transition, pre, halted, steps),
        halting(transition, halted),
        reaches(transition, pre, other, steps_other),
        steps <= steps_other,
    ensures
        steps_other == steps,
        other == halted,
{
    let mid = lemma_reaches_by_way_of(transition, pre, other, steps_other, steps);
    lemma_run_is_determined(transition, pre, halted, mid, steps);
    if steps_other > steps {
        let rest = (steps_other - steps) as nat;
        let next = lemma_reaches_by_way_of(transition, halted, other, rest, 1);
        let start = choose|start: EngineView<E, S, K, P>|
            {
                &&& reaches(transition, halted, start, 0)
                &&& #[trigger] stepped(transition, start, next)
            };
        lemma_step_is_determined(transition, halted, next, next);
    }
}

/// Equal beginnings give equal ends: where consumers and transition function
/// act in one way only, two runs from one engine with one number of steps
/// end alike, in the same engine, after the same steps, both halted or both
/// not.
pub proof fn lemma_runs_end_alike<E, S, K, F, P>(
    transition: F,
    pre: EngineView<E, S, K, P>,
    max_steps: usize,
    one: EngineView<E, S, K, P>,
    run: Run,
    other: EngineView<E, S, K, P>,
    run_other: Run,
) where
    E: Event,
    S: EventState<E>,
    K: Consumer<E, S, P>,
    P: ConsumerPriority,
    F: Fn(&S, &Engine<E, S, K, P>) -> (Option<S>, Vec<E>),

    requires
        EngineView::<E, S, K, P>::reactions_fixed(),
        transition_fixed::<E, S, K, F, P>(transition),
        ended(transition, pre, max_steps, one, run),
        ended(transition, pre, max_steps, other, run_other),
    ensures
        one == other,
        run == run_other,
{
    if run.halted && run_other.halted {
        if run.steps <= run_other.steps {
            lemma_halt_is_determined(
                transition,
                pre,
                one,
                (run.steps - 1) as nat,
                other,
                (run_other.steps - 1) as nat,
            );
        } else {
            lemma_halt_is_determined(
                transition,
                pre,
                other,
                (run_other.steps - 1) as nat,
                one,
                (run.steps - 1) as nat,
            );
        }
    } else if run.halted {
        lemma_halt_is_determined(
            transition,
            pre,
            one,
            (run.steps - 1) as nat,
            other,
            run_other.steps as nat,
        );
    } else if run_other.halted {
        lemma_halt_is_determined(
            transition,
            pre,
            other,
            (run_other.steps - 1) as nat,
            one,
            run.steps as nat,
        );
    } else {
        lemma_run_is_determined(transition, pre, one, other, run.steps as nat);
    }
}

} // verus!
