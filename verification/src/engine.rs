//! The dispatch core: the current state, the events that wait for each state,
//! and the registry of consumers.

use vstd::prelude::*;
use vstd::relations::sorted_by;
use vstd::seq_lib::*;
use std::marker::PhantomData;
use crate::event_machine::{Consumer, Event, EventState};
use crate::model::EngineView;
use crate::priority::{
    ascending, insertion_point, ordered, strictly_before, ConsumerPriority, DefaultPriority,
};
use crate::table::Table;

verus! {

/// Inserting an item into a sequence adds it to the items, whatever the place.
proof fn lemma_insert_to_multiset<A>(items: Seq<A>, place: int, item: A)
    requires
        0 <= place <= items.len(),
    ensures
        items.insert(place, item).to_multiset() =~= items.to_multiset().insert(item),
{
    broadcast use group_to_multiset_ensures;

    let left = items.subrange(0, place);
    let right = items.subrange(place, items.len() as int);
    assert(items =~= left + right);
    lemma_multiset_commutative(left, right);
    lemma_multiset_commutative(left.push(item), right);
}

/// The dispatch core. It holds the current state, the events that wait for
/// each state, the consumers, and for each state the numbers of the
/// consumers that declared it.
pub struct Engine<E, S, K, P = DefaultPriority> {
    state: S,
    event_queue: Table<S, E>,
    consumers: Vec<K>,
    event_consumers: Table<S, usize>,
    phantom_priority: PhantomData<P>,
}

impl<E: Event, S: EventState<E>, K: Consumer<E, S, P>, P: ConsumerPriority> View for Engine<
    E,
    S,
    K,
    P,
> {
    type V = EngineView<E, S, K, P>;

    closed spec fn view(&self) -> EngineView<E, S, K, P> {
        EngineView {
            state: self.state,
            queues: Map::total(|state: S| self.event_queue.row(state)),
            consumers: self.consumers@,
            phantom_priority: PhantomData,
        }
    }
}

impl<E: Event, S: EventState<E>, K: Consumer<E, S, P>, P: ConsumerPriority> Engine<E, S, K, P> {
    /// The queues hold events of their own state only, and the interest
    /// index lists, for every state, the consumers that declared it.
    pub closed spec fn wf(&self) -> bool {
        &&& self.event_queue.wf()
        &&& self.event_consumers.wf()
        &&& self@.wf()
        &&& forall|state: S| #[trigger] self.event_consumers.row(state) == self@.eligible(state)
    }

    /// An engine in the initial state, with no event and no consumer.
    pub fn new() -> (engine: Self)
        requires
            ordered::<P>(),
            EngineView::<E, S, K, P>::priorities_fixed(),
        ensures
            engine.wf(),
            engine@ == EngineView::<E, S, K, P>::initial(),
    {
        let engine = Engine {
            state: S::initial_state(),
            event_queue: Table::new(),
            consumers: Vec::new(),
            event_consumers: Table::new(),
            phantom_priority: PhantomData,
        };
        proof {
            assert(engine@.queues =~= EngineView::<E, S, K, P>::initial().queues);
            assert(engine@.consumers =~= EngineView::<E, S, K, P>::initial().consumers);
        }
        engine
    }

    /// The current state.
    pub fn state(&self) -> (state: &S)
        ensures
            *state == self@.state,
    {
        &self.state
    }

    /// How many events wait for `state`.
    pub fn pending(&self, state: &S) -> (count: usize)
        requires
            self.wf(),
        ensures
            count == self@.queue(*state).len(),
    {
        match self.event_queue.get(state) {
            Some(events) => events.len(),
            None => 0,
        }
    }

    /// The consumers, in the order of registration.
    pub fn consumers(&self) -> (consumers: &Vec<K>)
        ensures
            consumers@ == self@.consumers,
    {
        &self.consumers
    }

    /// Registers `consumer` behind the consumers that are there, under every
    /// state it declares, and returns its number. A state that the consumer
    /// names more than once is registered once.
    pub fn add_consumer(&mut self, consumer: K) -> (index: usize)
        requires
            old(self).wf(),
        ensures
            final(self).wf(),
            index == old(self)@.consumers.len(),
            final(self)@ == old(self)@.register(consumer),
    {
        let index: usize = self.consumers.len();
        let states = consumer.possible_states();
        self.consumers.push(consumer);
        let ghost declared = states@;
        proof {
            assert(old(self)@.consumers == old(self).consumers@);
        }
        for state in it: states
            invariant
                declared == consumer.interests(),
                it.seq() == declared,
                old(self).wf(),
                self.event_queue == old(self).event_queue,
                self.state == old(self).state,
                self.consumers@ == old(self).consumers@.push(consumer),
                index == old(self).consumers.len(),
                self.event_consumers.wf(),
                forall|other: S| #[trigger]
                    self.event_consumers.row(other) == old(self).event_consumers.row(other) + (
                    if declared.take(it.index()).contains(other) {
                        seq![index]
                    } else {
                        Seq::empty()
                    }),
        {
            let ghost before = self.event_consumers;
            let ghost done = declared.take(it.index());
            proof {
                assert(old(self).event_consumers.row(state) == old(self)@.eligible(state));
                assert(old(self)@.consumers == old(self).consumers@);
                EngineView::<E, S, K, P>::lemma_eligible_among_ordered(old(self)@.consumers, state);
                assert(declared.take(it.index() + 1) =~= done.push(state));
                assert forall|other: S|
                    declared.take(it.index() + 1).contains(other) <==> (done.contains(other)
                        || other == state) by {
                    let longer = done.push(state);
                    if done.contains(other) {
                        let i = choose|i: int| 0 <= i < done.len() && done[i] == other;
                        assert(longer[i] == other);
                    }
                    if other == state {
                        assert(longer[done.len() as int] == other);
                    }
                    if longer.contains(other) {
                        let i = choose|i: int| 0 <= i < longer.len() && longer[i] == other;
                        if i < done.len() {
                            assert(done[i] == other);
                        }
                    }
                }
            }
            let listed = match self.event_consumers.get(&state) {
                Some(entries) => entries.len() > 0 && entries[entries.len() - 1] == index,
                None => false,
            };
            proof {
                let row = before.row(state);
                let was = old(self).event_consumers.row(state);
                if done.contains(state) {
                    assert(row == was + seq![index]);
                    assert(row[row.len() - 1] == index);
                } else {
                    assert(row =~= was);
                }
                assert(listed == done.contains(state));
            }
            if !listed {
                self.event_consumers.push(state, index);
            }
            proof {
                assert forall|other: S| #[trigger]
                    self.event_consumers.row(other) == old(self).event_consumers.row(other) + (
                    if declared.take(it.index() + 1).contains(other) {
                        seq![index]
                    } else {
                        Seq::empty()
                    }) by {
                    let was = old(self).event_consumers.row(other);
                    if other == state && !listed {
                        assert(before.row(other) =~= was);
                        assert(was.push(index) =~= was + seq![index]);
                    } else {
                        assert(self.event_consumers.row(other) == before.row(other));
                    }
                }
            }
        }
        proof {
            assert(declared.take(declared.len() as int) =~= declared);
            assert(self.consumers@.len() == self.consumers.len());
            assert(self@.consumers.drop_last() =~= old(self)@.consumers);
            assert(self@.queues =~= old(self)@.queues);
            assert(self@ == old(self)@.register(consumer));
            assert forall|state: S| #[trigger]
                self.event_consumers.row(state) == self@.eligible(state) by {
                assert(old(self).event_consumers.row(state) == old(self)@.eligible(state));
            }
        }
        index
    }

    /// A well-formed engine has a well-formed view.
    pub proof fn lemma_view_wf(&self)
        requires
            self.wf(),
        ensures
            self@.wf(),
    {
    }

    /// The consumers to invoke on `event`, in the order of invocation: those
    /// that declared the state of `event`, ascending by priority, in the
    /// order of registration where priorities tie.
    pub fn prioritize_consumers(&self, event: &E) -> (order: Vec<usize>)
        requires
            self.wf(),
        ensures
            order@ == self@.prioritized(*event),
    {
        let state = S::from_event(event);
        let mut order: Vec<usize> = Vec::new();
        let mut keys: Vec<P> = Vec::new();
        let ghost before = self@.goes_before(*event);
        proof {
            assert(self.event_consumers.row(state) == self@.eligible(state));
            assert(self@.consumers == self.consumers@);
            assert(self.consumers@.len() == self.consumers.len());
            EngineView::<E, S, K, P>::lemma_eligible_among_ordered(self@.consumers, state);
            assert(order@.take(0) =~= order@);
        }
        match self.event_consumers.get(&state) {
            Some(entries) => {
                let mut next: usize = 0;
                assert(entries@.take(0) =~= order@);
                while next < entries.len()
                    invariant
                        next <= entries.len(),
                        ordered::<P>(),
                        EngineView::<E, S, K, P>::priorities_fixed(),
                        entries@ == self@.eligible(state),
                        self@.consumers == self.consumers@,
                        before == self@.goes_before(*event),
                        forall|i: int, j: int|
                            0 <= i < j < entries.len() ==> entries@[i] < entries@[j],
                        forall|i: int| 0 <= i < entries.len() ==> entries@[i] < self.consumers.len(),
                        keys.len() == order.len(),
                        ascending(keys@),
                        forall|i: int|
                            0 <= i < order.len() ==> order@[i] < self.consumers.len()
                                && #[trigger] keys@[i] == EngineView::<E, S, K, P>::priority_of(
                                self.consumers@[order@[i] as int],
                                *event,
                            ),
                        forall|i: int, j: int|
                            0 <= i < order.len() && next <= j < entries.len() ==> order@[i]
                                < entries@[j],
                        sorted_by(order@, before),
                        order@.to_multiset() == entries@.take(next as int).to_multiset(),
                    decreases entries.len() - next,
                {
                    let index: usize = entries[next];
                    let key = self.consumers[index].prioritize(event);
                    proof {
                        EngineView::<E, S, K, P>::lemma_priority_of(
                            self.consumers@[index as int],
                            *event,
                            key,
                        );
                    }
                    let place: usize = insertion_point(&keys, &key);
                    let ghost old_keys = keys@;
                    let ghost old_order = order@;
                    keys.insert(place, key);
                    order.insert(place, index);
                    proof {
                        old_keys.insert_ensures(place as int, key);
                        old_order.insert_ensures(place as int, index);
                        lemma_insert_to_multiset(old_order, place as int, index);
                        assert(entries@.take(next + 1) =~= entries@.take(next as int).push(index));
                        assert(entries@.take(next + 1).to_multiset() =~= entries@.take(
                            next as int,
                        ).to_multiset().insert(index)) by {
                            broadcast use group_to_multiset_ensures;

                        }
                        assert forall|i: int| 0 <= i < order.len() implies order@[i]
                            < self.consumers.len() && #[trigger] keys@[i]
                            == EngineView::<E, S, K, P>::priority_of(
                            self.consumers@[order@[i] as int],
                            *event,
                        ) by {
                            if i < place {
                            } else if i > place {
                                assert(keys@[i] == old_keys[i - 1]);
                                assert(order@[i] == old_order[i - 1]);
                            }
                        }
                        assert forall|i: int, j: int| 0 <= i < j < keys.len() implies (
                        #[trigger] keys@[i]).not_after(#[trigger] &keys@[j]) by {
                            let a = if i < place { i } else { i - 1 };
                            let b = if j < place { j } else { j - 1 };
                            if i != place {
                                assert(keys@[i] == old_keys[a]);
                            }
                            if j != place {
                                assert(keys@[j] == old_keys[b]);
                            }
                        }
                        assert forall|i: int, j: int| 0 <= i < j < order.len() implies #[trigger]
                        before(order@[i], order@[j]) by {
                            let a = if i < place { i } else { i - 1 };
                            let b = if j < place { j } else { j - 1 };
                            if i != place {
                                assert(order@[i] == old_order[a]);
                                assert(keys@[i] == old_keys[a]);
                            }
                            if j != place {
                                assert(order@[j] == old_order[b]);
                                assert(keys@[j] == old_keys[b]);
                            }
                            if i != place && j != place {
                                assert(before(old_order[a], old_order[b]));
                            } else if j == place {
                                assert(old_keys[a].not_after(&key));
                                assert(old_order[a] <= entries@[next as int]);
                            } else {
                                assert(strictly_before(&key, &old_keys[b]));
                            }
                        }
                        assert forall|i: int, j: int|
                            0 <= i < order.len() && next + 1 <= j < entries.len() implies order@[i]
                            < entries@[j] by {
                            if i < place {
                            } else if i > place {
                                assert(order@[i] == old_order[i - 1]);
                            }
                        }
                    }
                    next += 1;
                }
                proof {
                    assert(entries@.take(entries.len() as int) =~= entries@);
                    self@.lemma_prioritized_is_sorted(*event, order@);
                }
                order
            },
            None => {
                proof {
                    self@.lemma_prioritized_is_sorted(*event, order@);
                }
                order
            },
        }
    }

    /// Appends `event` to the queue of the state that owns it.
    pub fn enqueue(&mut self, event: E)
        requires
            old(self).wf(),
        ensures
            final(self).wf(),
            final(self)@ == old(self)@.enqueue(event),
    {
        let state = S::from_event(&event);
        self.event_queue.push(state, event);
        proof {
            assert(self@.queues =~= old(self)@.enqueue(event).queues);
        }
    }

    /// Enqueues each of `events`, in order.
    pub fn enqueue_all(&mut self, events: Vec<E>)
        requires
            old(self).wf(),
        ensures
            final(self).wf(),
            final(self)@ == old(self)@.enqueue_all(events@),
    {
        let ghost all = events@;
        proof {
            old(self)@.lemma_enqueue_all_empty();
            assert(all.take(0) =~= Seq::<E>::empty());
        }
        for event in it: events
            invariant
                it.seq() == all,
                old(self)@.wf(),
                self.wf(),
                self@ == old(self)@.enqueue_all(all.take(it.index())),
        {
            proof {
                old(self)@.lemma_enqueue_all_push(all.take(it.index()), event);
                assert(all.take(it.index() + 1) =~= all.take(it.index()).push(event));
            }
            self.enqueue(event);
        }
        proof {
            assert(all.take(all.len() as int) =~= all);
        }
    }

    /// Takes in what one invocation produced: registers each of `spawned`,
    /// in order, then enqueues each of `emitted`, in order.
    pub fn absorb(&mut self, emitted: Vec<E>, spawned: Vec<K>)
        requires
            old(self).wf(),
        ensures
            final(self).wf(),
            final(self)@ == old(self)@.register_all(spawned@).enqueue_all(emitted@),
    {
        let ghost all = spawned@;
        proof {
            assert(old(self)@.consumers + all.take(0) =~= old(self)@.consumers);
        }
        for consumer in it: spawned
            invariant
                it.seq() == all,
                self.wf(),
                self@ == old(self)@.register_all(all.take(it.index())),
        {
            proof {
                assert((old(self)@.consumers + all.take(it.index())).push(consumer) =~= old(
                    self,
                )@.consumers + all.take(it.index() + 1));
            }
            let _ = self.add_consumer(consumer);
        }
        proof {
            assert(all.take(all.len() as int) =~= all);
        }
        self.enqueue_all(emitted);
    }

    /// Passes `event` to the consumers eligible now, in their order of
    /// priority, and takes in what each produces before the next is invoked.
    /// A consumer spawned during the pass is registered at once, but is not
    /// invoked in this pass. Returns the number of invocations; it is zero
    /// for an event that no consumer claims, which is dropped.
    pub fn dispatch(&mut self, event: &E) -> (invocations: usize)
        requires
            old(self).wf(),
        ensures
            final(self).wf(),
            invocations == old(self)@.prioritized(*event).len(),
            old(self)@.pass(*event, old(self)@.prioritized(*event), final(self)@),
    {
        let order = self.prioritize_consumers(event);
        let ghost start = self@;
        let ghost state = S::state_of(event);
        proof {
            assert(start.consumers == self.consumers@);
            start.lemma_prioritized_is_sorted(*event, order@);
            assert(order@.take(0) =~= Seq::<usize>::empty());
        }
        let mut next: usize = 0;
        while next < order.len()
            invariant
                next <= order.len(),
                start == old(self)@,
                start.wf(),
                state == S::state_of(event),
                order@ == start.prioritized(*event),
                order@.to_multiset() == start.eligible(state).to_multiset(),
                self.wf(),
                start.pass(*event, order@.take(next as int), self@),
                start.consumers.len() <= self.consumers.len(),
                forall|i: int|
                    0 <= i < start.consumers.len() ==> (#[trigger] self.consumers@[i]).interests()
                        == start.consumers[i].interests(),
            decreases order.len() - next,
        {
            let index: usize = order[next];
            let ghost mid = self@;
            proof {
                order@.to_multiset_ensures();
                start.eligible(state).to_multiset_ensures();
                assert(order@[next as int] == index);
                assert(order@.contains(index));
                assert(order@.to_multiset().count(index) > 0);
                assert(start.eligible(state).contains(index));
                EngineView::<E, S, K, P>::lemma_eligible_among_contains(
                    start.consumers,
                    state,
                    index,
                );
                assert(self.consumers@[index as int].interests() == start.consumers[index as int].interests());
            }
            let ghost before = self.consumers@;
            let (emitted, spawned) = self.consumers[index].handle_event(event);
            let ghost after = self.consumers@[index as int];
            proof {
                assert(self.consumers@ =~= before.update(index as int, after));
                assert(self@.queues =~= mid.queues);
                assert(self@ == mid.replaced(index, after));
                assert forall|other: S| #[trigger]
                    self.event_consumers.row(other) == self@.eligible(other) by {
                    assert(self.event_consumers.row(other) == mid.eligible(other));
                    EngineView::<E, S, K, P>::lemma_eligible_among_by_interests(
                        mid.consumers,
                        self@.consumers,
                        other,
                    );
                }
                assert(self.wf());
            }
            self.absorb(emitted, spawned);
            proof {
                assert(self@ == mid.absorbed(index, after, emitted@, spawned@));
                assert(mid.invoked(*event, index, self@));
                start.lemma_pass_step(*event, order@.take(next as int), mid, index, self@);
                assert(order@.take(next + 1) =~= order@.take(next as int).push(index));
            }
            next += 1;
        }
        proof {
            assert(order@.take(order.len() as int) =~= order@);
        }
        next
    }

    /// Moves to `state` and enqueues the events that come with the move.
    pub fn advance(&mut self, state: S, seeds: Vec<E>)
        requires
            old(self).wf(),
        ensures
            final(self).wf(),
            final(self)@ == old(self)@.moved_to(state).enqueue_all(seeds@),
    {
        self.state = state;
        proof {
            assert(self@.queues =~= old(self)@.queues);
            assert(self@ == old(self)@.moved_to(state));
            assert forall|other: S| #[trigger]
                self.event_consumers.row(other) == self@.eligible(other) by {
                assert(old(self).event_consumers.row(other) == old(self)@.eligible(other));
            }
        }
        self.enqueue_all(seeds);
    }

    /// Removes and returns the newest event that waits for the current state,
    /// or `None` if none waits. Events of other states stay where they are.
    pub fn dequeue(&mut self) -> (event: Option<E>)
        requires
            old(self).wf(),
        ensures
            final(self).wf(),
            (event, final(self)@) == old(self)@.dequeue(),
    {
        let event = self.event_queue.pop(&self.state);
        proof {
            assert(self@.queues =~= old(self)@.dequeue().1.queues);
        }
        event
    }
}

} // verus!
