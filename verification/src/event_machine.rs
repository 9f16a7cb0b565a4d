//! The state machine that drives the engine: the interfaces a caller
//! supplies, and the run loop that drains queued events and asks the
//! transition function where to go next.

use vstd::prelude::*;
use crate::engine::Engine;
use crate::model::EngineView;
use crate::priority::{ordered, ConsumerPriority, DefaultPriority};
use crate::table::Key;

verus! {

/// A payload that is queued and handed to consumers. An event carries no
/// behaviour of its own.
pub trait Event {

}

/// A phase of the process. It selects the queue that is drained and the
/// consumers that are eligible.
///
/// `state_of` and `initial` say nothing as they are given here: a verified
/// implementation states them, one that is not verified may leave them.
pub trait EventState<E: Event>: Key {
    /// The one state that owns `event`.
    open spec fn state_of(event: &E) -> Self {
        arbitrary()
    }

    /// The state in which every machine starts.
    open spec fn initial() -> Self {
        arbitrary()
    }

    /// Computes `state_of`.
    fn from_event(event: &E) -> (state: Self)
        ensures
            state == Self::state_of(event),
    ;

    /// Gives the initial state.
    fn initial_state() -> (state: Self)
        ensures
            state == Self::initial(),
    ;
}

/// A stateful unit of reactive logic, bound to the states it declares.
///
/// `interests` says nothing as it is given here, `priority` names no key and
/// `reaction` allows everything: a verified implementation states them, one
/// that is not verified may leave them.
pub trait Consumer<E: Event, S: EventState<E>, P: ConsumerPriority = DefaultPriority>: Sized {
    /// The states whose events this consumer wants to see. They are taken as
    /// a set: naming a state more than once is naming it once.
    open spec fn interests(&self) -> Seq<S> {
        arbitrary()
    }

    /// The key by which this consumer is ordered among those eligible for
    /// `event`, where it gives one of its own; `None` where it takes the
    /// default key.
    open spec fn priority(&self, event: &E) -> Option<P> {
        None
    }

    /// What handling `event` may do: `after` is the consumer afterwards,
    /// `emitted` the follow-up events and `spawned` the new consumers.
    open spec fn reaction(
        &self,
        event: &E,
        after: &Self,
        emitted: Seq<E>,
        spawned: Seq<Self>,
    ) -> bool {
        true
    }

    /// Declares `interests`.
    fn possible_states(&self) -> (states: Vec<S>)
        ensures
            states@ == self.interests(),
    ;

    /// Computes the key by which this consumer is ordered among those
    /// eligible for `event`. As provided it is the default key, so that the
    /// consumers which give none of their own all tie.
    fn prioritize(&self, event: &E) -> (key: P)
        default_ensures
            call_ensures(P::default, (), key),
    {
        P::default()
    }

    /// Reacts to `event`, and returns the follow-up events and the consumers
    /// it spawns. The engine hands a consumer only events of states it
    /// declared, and the declared states stay what they were.
    fn handle_event(&mut self, event: &E) -> (produced: (Vec<E>, Vec<Self>))
        requires
            old(self).interests().contains(S::state_of(event)),
        ensures
            final(self).interests() == old(self).interests(),
            old(self).reaction(event, final(self), produced.0@, produced.1@),
    ;
}

/// A transition function may be called on every engine whose current state
/// has nothing left to drain.
pub open spec fn callable_when_drained<E, S, K, F, P>(transition: F) -> bool where
    E: Event,
    S: EventState<E>,
    K: Consumer<E, S, P>,
    P: ConsumerPriority,
    F: Fn(&S, &Engine<E, S, K, P>) -> (Option<S>, Vec<E>),
 {
    forall|engine: Engine<E, S, K, P>|
        engine.wf() && engine@.queue(engine@.state).len() == 0 ==> #[trigger] call_requires(
            transition,
            (&engine@.state, &engine),
        )
}

/// `post` is what one advancing step may turn `pre` into: nothing is left
/// to drain, the transition function names a next state, the engine moves
/// there and the seed events are enqueued.
pub open spec fn advanced<E, S, K, F, P>(
    transition: F,
    pre: EngineView<E, S, K, P>,
    post: EngineView<E, S, K, P>,
) -> bool where
    E: Event,
    S: EventState<E>,
    K: Consumer<E, S, P>,
    P: ConsumerPriority,
    F: Fn(&S, &Engine<E, S, K, P>) -> (Option<S>, Vec<E>),
 {
    &&& pre.queue(pre.state).len() == 0
    &&& exists|engine: Engine<E, S, K, P>, next: S, seeds: Vec<E>|
        {
            &&& engine.wf()
            &&& engine@ == pre
            &&& #[trigger] call_ensures(transition, (&pre.state, &engine), (Some(next), seeds))
            &&& post == pre.moved_to(next).enqueue_all(seeds@)
        }
}

/// The machine may halt in `pre`: nothing is left to drain, and the
/// transition function names no next state.
pub open spec fn halting<E, S, K, F, P>(transition: F, pre: EngineView<E, S, K, P>) -> bool where
    E: Event,
    S: EventState<E>,
    K: Consumer<E, S, P>,
    P: ConsumerPriority,
    F: Fn(&S, &Engine<E, S, K, P>) -> (Option<S>, Vec<E>),
 {
    &&& pre.queue(pre.state).len() == 0
    &&& exists|engine: Engine<E, S, K, P>, seeds: Vec<E>|
        {
            &&& engine.wf()
            &&& engine@ == pre
            &&& #[trigger] call_ensures(transition, (&pre.state, &engine), (None::<S>, seeds))
        }
}

/// `post` is what `steps` steps, each draining or advancing, may turn `pre`
/// into.
pub open spec fn reaches<E, S, K, F, P>(
    transition: F,
    pre: EngineView<E, S, K, P>,
    post: EngineView<E, S, K, P>,
    steps: nat,
) -> bool where
    E: Event,
    S: EventState<E>,
    K: Consumer<E, S, P>,
    P: ConsumerPriority,
    F: Fn(&S, &Engine<E, S, K, P>) -> (Option<S>, Vec<E>),

    decreases steps,
{
    if steps == 0 {
        post == pre
    } else {
        exists|mid: EngineView<E, S, K, P>|
            {
                &&& reaches(transition, pre, mid, (steps - 1) as nat)
                &&& #[trigger] stepped(transition, mid, post)
            }
    }
}

/// `post` is what one step that does not halt may turn `pre` into.
pub open spec fn stepped<E, S, K, F, P>(
    transition: F,
    pre: EngineView<E, S, K, P>,
    post: EngineView<E, S, K, P>,
) -> bool where
    E: Event,
    S: EventState<E>,
    K: Consumer<E, S, P>,
    P: ConsumerPriority,
    F: Fn(&S, &Engine<E, S, K, P>) -> (Option<S>, Vec<E>),
 {
    pre.drained(post) || advanced(transition, pre, post)
}

/// `post` and `run` are what a run of at most `max_steps` steps may end in.
/// A run that halted took all its steps but the last without halting and
/// may halt where it ended; one that did not halt took every step it was
/// given.
pub open spec fn ended<E, S, K, F, P>(
    transition: F,
    pre: EngineView<E, S, K, P>,
    max_steps: usize,
    post: EngineView<E, S, K, P>,
    run: Run,
) -> bool where
    E: Event,
    S: EventState<E>,
    K: Consumer<E, S, P>,
    P: ConsumerPriority,
    F: Fn(&S, &Engine<E, S, K, P>) -> (Option<S>, Vec<E>),
 {
    &&& run.steps <= max_steps
    &&& run.halted ==> {
        &&& run.steps >= 1
        &&& reaches(transition, pre, post, (run.steps - 1) as nat)
        &&& halting(transition, post)
    }
    &&& !run.halted ==> {
        &&& run.steps == max_steps
        &&& reaches(transition, pre, post, run.steps as nat)
    }
}

/// What one step of the run loop did.
#[derive(Clone, Copy, Debug, PartialEq, Eq)]
pub enum Step {
    /// An event left the queue of the current state and was dispatched.
    /// Where nothing was invoked, no consumer claimed the event, and it was
    /// dropped.
    Drained {
        /// How many times a consumer was invoked on the event.
        invocations: usize,
    },
    /// Nothing was left to drain, and the machine moved to its next state.
    Advanced,
    /// Nothing was left to drain, and the transition function named no next
    /// state.
    Halted,
}

/// How a run ended.
#[derive(Clone, Copy, Debug, PartialEq, Eq)]
pub struct Run {
    /// Whether the machine halted; if not, the run used up its steps.
    pub halted: bool,
    /// The steps taken, the halting one included.
    pub steps: usize,
}

/// The engine together with the transition function that advances it.
pub struct EventMachine<E, S, K, F, P = DefaultPriority> {
    engine: Engine<E, S, K, P>,
    transition: F,
}

impl<E, S, K, F, P> View for EventMachine<E, S, K, F, P> where
    E: Event,
    S: EventState<E>,
    K: Consumer<E, S, P>,
    P: ConsumerPriority,
    F: Fn(&S, &Engine<E, S, K, P>) -> (Option<S>, Vec<E>),
 {
    type V = EngineView<E, S, K, P>;

    closed spec fn view(&self) -> EngineView<E, S, K, P> {
        self.engine@
    }
}

impl<E, S, K, F, P> EventMachine<E, S, K, F, P> where
    E: Event,
    S: EventState<E>,
    K: Consumer<E, S, P>,
    P: ConsumerPriority,
    F: Fn(&S, &Engine<E, S, K, P>) -> (Option<S>, Vec<E>),
 {
    /// The transition function the machine was made with.
    pub closed spec fn transition(&self) -> F {
        self.transition
    }

    /// The engine is well formed, and the transition function can be called
    /// whenever the engine has nothing left to drain.
    pub closed spec fn wf(&self) -> bool {
        &&& self.engine.wf()
        &&& callable_when_drained::<E, S, K, F, P>(self.transition)
    }

    /// A machine in the initial state, with no event and no consumer.
    pub fn new(transition: F) -> (machine: Self)
        requires
            ordered::<P>(),
            EngineView::<E, S, K, P>::priorities_fixed(),
            callable_when_drained::<E, S, K, F, P>(transition),
        ensures
            machine.wf(),
            machine.transition() == transition,
            machine@ == EngineView::<E, S, K, P>::initial(),
    {
        EventMachine { engine: Engine::new(), transition }
    }

    /// The engine, to look at.
    pub fn engine(&self) -> (engine: &Engine<E, S, K, P>)
        requires
            self.wf(),
        ensures
            engine.wf(),
            engine@ == self@,
    {
        &self.engine
    }

    /// Registers `consumer` behind the consumers that are there, under every
    /// state it declares, and returns its number. A state that the consumer
    /// names more than once is registered once.
    pub fn add_consumer(&mut self, consumer: K) -> (index: usize)
        requires
            old(self).wf(),
        ensures
            final(self).wf(),
            final(self).transition() == old(self).transition(),
            index == old(self)@.consumers.len(),
            final(self)@ == old(self)@.register(consumer),
    {
        self.engine.add_consumer(consumer)
    }

    /// A well-formed machine has a well-formed view.
    pub proof fn lemma_view_wf(&self)
        requires
            self.wf(),
        ensures
            self@.wf(),
    {
        self.engine.lemma_view_wf();
    }

    /// One turn of the run loop. While an event waits for the current state,
    /// the newest is dispatched. Once none waits, the transition function is
    /// asked: on a next state the machine moves there and enqueues the seed
    /// events, on none it halts and stays as it is.
    pub fn step(&mut self) -> (step: Step)
        requires
            old(self).wf(),
        ensures
            final(self).wf(),
            final(self).transition() == old(self).transition(),
            match step {
                Step::Drained { invocations } => {
                    &&& old(self)@.drained(final(self)@)
                    &&& invocations == old(self)@.dequeue().1.prioritized(
                        old(self)@.dequeue().0.unwrap(),
                    ).len()
                },
                Step::Advanced => advanced(old(self).transition(), old(self)@, final(self)@),
                Step::Halted => halting(old(self).transition(), old(self)@) && final(self)@ == old(
                    self,
                )@,
            },
    {
        match self.engine.dequeue() {
            Some(event) => {
                let invocations: usize = self.engine.dispatch(&event);
                Step::Drained { invocations }
            },
            None => {
                let (next, seeds) = (self.transition)(self.engine.state(), &self.engine);
                match next {
                    Some(state) => {
                        self.engine.advance(state, seeds);
                        Step::Advanced
                    },
                    None => Step::Halted,
                }
            },
        }
    }

    /// Runs the loop for at most `max_steps` steps, and stops before that if
    /// the machine halts. The machine halts when, with nothing left to drain,
    /// the transition function names no next state, and only then: a machine
    /// whose transition function always names one uses up every step it is
    /// given.
    pub fn run(&mut self, max_steps: usize) -> (run: Run)
        requires
            old(self).wf(),
        ensures
            final(self).wf(),
            final(self).transition() == old(self).transition(),
            ended(old(self).transition(), old(self)@, max_steps, final(self)@, run),
    {
        let mut steps: usize = 0;
        while steps < max_steps
            invariant
                steps <= max_steps,
                self.wf(),
                self.transition() == old(self).transition(),
                reaches(old(self).transition(), old(self)@, self@, steps as nat),
            decreases max_steps - steps,
        {
            let ghost mid = self@;
            let step = self.step();
            steps += 1;
            match step {
                Step::Halted => {
                    return Run { halted: true, steps };
                },
                _ => {
                    proof {
                        assert(stepped(old(self).transition(), mid, self@));
                    }
                },
            }
        }
        Run { halted: false, steps }
    }
}

} // verus!
