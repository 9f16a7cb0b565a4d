//! The mathematical model of the dispatch core: what an engine is, what each
//! operation turns it into, and which consumers an event goes to.

use vstd::prelude::*;
use vstd::relations::{sorted_by, total_ordering};
use vstd::seq_lib::*;
use std::marker::PhantomData;
use crate::event_machine::{Consumer, Event, EventState};
use crate::priority::{ordered, strictly_before, ties, ConsumerPriority};

verus! {

/// What an engine is, as mathematics: its state, one queue for every state
/// (oldest event first), and its consumers in the order of registration.
#[verifier::reject_recursive_types(S)]
pub struct EngineView<E, S, K, P> {
    pub state: S,
    pub queues: Map<S, Seq<E>>,
    pub consumers: Seq<K>,
    pub phantom_priority: PhantomData<P>,
}

impl<E: Event, S: EventState<E>, K: Consumer<E, S, P>, P: ConsumerPriority> EngineView<E, S, K, P> {
    /// The default key of the priorities.
    pub open spec fn default_key() -> P {
        choose|key: P| call_ensures(P::default, (), key)
    }

    /// The key by which `consumer` is ordered among those eligible for
    /// `event`: its own, where it gives one, and the default key otherwise.
    pub open spec fn priority_of(consumer: K, event: E) -> P {
        match consumer.priority(&event) {
            Some(key) => key,
            None => Self::default_key(),
        }
    }

    /// What a consumer answers when asked for its priority is its key for
    /// the event, and nothing else.
    pub open spec fn priorities_fixed() -> bool {
        forall|consumer: K, event: E, key: P|
            #[trigger] call_ensures(K::prioritize, (&consumer, &event), key) ==> key
                == Self::priority_of(consumer, event)
    }

    /// Every state has a queue, a queue holds only events of its state, the
    /// consumers can be numbered by machine integers, and their priorities
    /// are fixed and in order.
    pub open spec fn wf(self) -> bool {
        &&& ordered::<P>()
        &&& Self::priorities_fixed()
        &&& self.consumers.len() <= usize::MAX
        &&& self.queues.dom() =~= Set::full()
        &&& forall|state: S, i: int|
            0 <= i < self.queues[state].len() ==> S::state_of(&#[trigger] self.queues[state][i])
                == state
    }

    /// The engine in which nothing has happened yet.
    pub open spec fn initial() -> Self {
        EngineView {
            state: S::initial(),
            queues: Map::total(|state: S| Seq::<E>::empty()),
            consumers: Seq::empty(),
            phantom_priority: PhantomData,
        }
    }

    /// The events pending for `state`, oldest first.
    pub open spec fn queue(self, state: S) -> Seq<E> {
        self.queues[state]
    }

    /// The engine after `event` was appended to the queue of its state.
    pub open spec fn enqueue(self, event: E) -> Self {
        let state = S::state_of(&event);
        EngineView { queues: self.queues.insert(state, self.queues[state].push(event)), ..self }
    }

    /// The events that `state` owns.
    pub open spec fn owned_by(state: S) -> spec_fn(E) -> bool {
        |event: E| S::state_of(&event) == state
    }

    /// The engine after each of `events` was enqueued, in order: every queue
    /// grows by the events of its state.
    pub open spec fn enqueue_all(self, events: Seq<E>) -> Self {
        EngineView {
            queues: Map::total(
                |state: S| self.queues[state] + events.filter(Self::owned_by(state)),
            ),
            ..self
        }
    }

    /// The results of `count` dequeues in a row, and the engine after them.
    /// Where the queue of the current state runs empty, the rest is left out.
    pub open spec fn dequeues(self, count: nat) -> (Seq<E>, Self)
        decreases count,
    {
        if count == 0 {
            (Seq::empty(), self)
        } else {
            match self.dequeue().0 {
                Some(event) => (
                    seq![event] + self.dequeue().1.dequeues((count - 1) as nat).0,
                    self.dequeue().1.dequeues((count - 1) as nat).1,
                ),
                None => (Seq::empty(), self),
            }
        }
    }

    /// The newest event of the current state's queue, and the engine without
    /// it; `None` and the engine as it is where that queue is empty.
    pub open spec fn dequeue(self) -> (Option<E>, Self) {
        let pending = self.queues[self.state];
        if pending.len() > 0 {
            (
                Some(pending.last()),
                EngineView { queues: self.queues.insert(self.state, pending.drop_last()), ..self },
            )
        } else {
            (None, self)
        }
    }

    /// The engine in another state.
    pub open spec fn moved_to(self, state: S) -> Self {
        EngineView { state, ..self }
    }

    /// The engine with one more consumer, registered last.
    pub open spec fn register(self, consumer: K) -> Self {
        EngineView { consumers: self.consumers.push(consumer), ..self }
    }

    /// The engine after each of `spawned` was registered, in order.
    pub open spec fn register_all(self, spawned: Seq<K>) -> Self {
        EngineView { consumers: self.consumers + spawned, ..self }
    }

    /// The engine with the consumer at `index` replaced.
    pub open spec fn replaced(self, index: usize, consumer: K) -> Self {
        EngineView { consumers: self.consumers.update(index as int, consumer), ..self }
    }

    /// What a consumer registered as number `index` adds to the interest
    /// index of `state`: its number, if it declared `state`, and nothing
    /// otherwise. What a consumer declares is a set: a state that it names
    /// more than once counts once.
    pub open spec fn entries_of(consumer: K, index: usize, state: S) -> Seq<usize> {
        if consumer.interests().contains(state) {
            seq![index]
        } else {
            Seq::empty()
        }
    }

    /// The interest index of `state` over `consumers`: the entries of each
    /// consumer, in the order of registration.
    pub open spec fn eligible_among(consumers: Seq<K>, state: S) -> Seq<usize>
        decreases consumers.len(),
    {
        if consumers.len() == 0 {
            Seq::empty()
        } else {
            Self::eligible_among(consumers.drop_last(), state) + Self::entries_of(
                consumers.last(),
                (consumers.len() - 1) as usize,
                state,
            )
        }
    }

    /// The numbers of the consumers that declared `state`.
    pub open spec fn eligible(self, state: S) -> Seq<usize> {
        Self::eligible_among(self.consumers, state)
    }

    /// The order of dispatch for `event`: ascending by priority, and by
    /// number of registration where priorities tie.
    pub open spec fn goes_before(self, event: E) -> spec_fn(usize, usize) -> bool {
        |a: usize, b: usize|
            {
                let key_a = Self::priority_of(self.consumers[a as int], event);
                let key_b = Self::priority_of(self.consumers[b as int], event);
                strictly_before(&key_a, &key_b) || (ties(&key_a, &key_b) && a <= b)
            }
    }

    /// The consumers that are invoked on `event`, in the order of invocation.
    pub open spec fn prioritized(self, event: E) -> Seq<usize> {
        self.eligible(S::state_of(&event)).sort_by(self.goes_before(event))
    }

    /// The engine after the consumer at `index` turned into `after`, its
    /// spawned consumers were registered and its events enqueued.
    pub open spec fn absorbed(self, index: usize, after: K, emitted: Seq<E>, spawned: Seq<K>) -> Self {
        self.replaced(index, after).register_all(spawned).enqueue_all(emitted)
    }

    /// `post` is what invoking the consumer at `index` on `event` may turn
    /// this engine into.
    pub open spec fn invoked(self, event: E, index: usize, post: Self) -> bool {
        &&& index < self.consumers.len()
        &&& exists|after: K, emitted: Seq<E>, spawned: Seq<K>|
            {
                &&& self.consumers[index as int].reaction(&event, &after, emitted, spawned)
                &&& after.interests() == self.consumers[index as int].interests()
                &&& post == #[trigger] self.absorbed(index, after, emitted, spawned)
            }
        &&& post.wf()
    }

    /// `post` is what invoking the consumers of `order` on `event`, one after
    /// the other, may turn this engine into.
    pub open spec fn pass(self, event: E, order: Seq<usize>, post: Self) -> bool
        decreases order.len(),
    {
        if order.len() == 0 {
            post == self
        } else {
            exists|mid: Self|
                {
                    &&& self.pass(event, order.drop_last(), mid)
                    &&& #[trigger] mid.invoked(event, order.last(), post)
                }
        }
    }

    /// `post` is what one draining step may turn this engine into: the newest
    /// event of the current state leaves its queue and is passed to the
    /// consumers eligible at that moment, in their order of priority.
    pub open spec fn drained(self, post: Self) -> bool {
        &&& self.queue(self.state).len() > 0
        &&& self.dequeue().1.pass(
            self.dequeue().0.unwrap(),
            self.dequeue().1.prioritized(self.dequeue().0.unwrap()),
            post,
        )
    }

    /// The interest index holds a number exactly if the consumer of that
    /// number declared the state.
    pub proof fn lemma_eligible_among_contains(consumers: Seq<K>, state: S, index: usize)
        requires
            consumers.len() <= usize::MAX,
        ensures
            Self::eligible_among(consumers, state).contains(index) <==> (index < consumers.len()
                && consumers[index as int].interests().contains(state)),
        decreases consumers.len(),
    {
        if consumers.len() > 0 {
            let rest = consumers.drop_last();
            let last = (consumers.len() - 1) as usize;
            let head = Self::eligible_among(rest, state);
            let tail = Self::entries_of(consumers.last(), last, state);
            Self::lemma_eligible_among_contains(rest, state, index);
            if head.contains(index) {
                let i = choose|i: int| 0 <= i < head.len() && head[i] == index;
                assert((head + tail)[i] == index);
            }
            if index == last && consumers.last().interests().contains(state) {
                assert((head + tail)[head.len() as int] == index);
            }
            if (head + tail).contains(index) {
                let i = choose|i: int| 0 <= i < (head + tail).len() && (head + tail)[i] == index;
                if i < head.len() {
                    assert(head[i] == index);
                } else {
                    assert(tail[i - head.len()] == index);
                }
            }
        }
    }

    /// The interest index lists the consumers in the order of registration,
    /// and none of them twice.
    pub proof fn lemma_eligible_among_ordered(consumers: Seq<K>, state: S)
        requires
            consumers.len() <= usize::MAX,
        ensures
            forall|i: int, j: int|
                0 <= i < j < Self::eligible_among(consumers, state).len()
                    ==> Self::eligible_among(consumers, state)[i] < Self::eligible_among(
                    consumers,
                    state,
                )[j],
            forall|i: int|
                0 <= i < Self::eligible_among(consumers, state).len() ==> Self::eligible_among(
                    consumers,
                    state,
                )[i] < consumers.len(),
            Self::eligible_among(consumers, state).no_duplicates(),
        decreases consumers.len(),
    {
        if consumers.len() > 0 {
            let rest = consumers.drop_last();
            let last = (consumers.len() - 1) as usize;
            let head = Self::eligible_among(rest, state);
            let tail = Self::entries_of(consumers.last(), last, state);
            let all = Self::eligible_among(consumers, state);
            Self::lemma_eligible_among_ordered(rest, state);
            assert(all == head + tail);
            assert forall|i: int| 0 <= i < all.len() implies all[i] < consumers.len() by {
                if i < head.len() {
                    assert(all[i] == head[i]);
                } else {
                    assert(all[i] == tail[i - head.len()]);
                }
            }
            assert forall|i: int, j: int| 0 <= i < j < all.len() implies all[i] < all[j] by {
                assert(all[i] == head[i]);
                if j < head.len() {
                    assert(all[j] == head[j]);
                } else {
                    assert(all[j] == tail[j - head.len()]);
                }
            }
        }
    }

    /// The interest index depends on what the consumers declared and on
    /// nothing else of them.
    pub proof fn lemma_eligible_among_by_interests(consumers: Seq<K>, others: Seq<K>, state: S)
        requires
            consumers.len() == others.len(),
            forall|i: int|
                0 <= i < consumers.len() ==> (#[trigger] consumers[i]).interests()
                    == others[i].interests(),
        ensures
            Self::eligible_among(consumers, state) == Self::eligible_among(others, state),
        decreases consumers.len(),
    {
        if consumers.len() > 0 {
            Self::lemma_eligible_among_by_interests(consumers.drop_last(), others.drop_last(), state);
            assert(consumers.last().interests() == others.last().interests());
        }
    }

    /// Enqueueing no event changes nothing.
    pub proof fn lemma_enqueue_all_empty(self)
        requires
            self.wf(),
        ensures
            self.enqueue_all(Seq::empty()) == self,
    {
        reveal(Seq::filter);
        assert(self.enqueue_all(Seq::empty()).queues =~= self.queues);
    }

    /// Enqueueing events and then one more is enqueueing them all.
    pub proof fn lemma_enqueue_all_push(self, events: Seq<E>, event: E)
        requires
            self.wf(),
        ensures
            self.enqueue_all(events).enqueue(event) == self.enqueue_all(events.push(event)),
            self.enqueue_all(events).wf(),
    {
        reveal(Seq::filter);
        assert(events.push(event).drop_last() =~= events);
        assert(self.enqueue_all(events).enqueue(event).queues =~= self.enqueue_all(
            events.push(event),
        ).queues);
        self.lemma_enqueue_all_wf(events);
    }

    /// Enqueueing keeps every event in the queue of its state.
    pub proof fn lemma_enqueue_all_wf(self, events: Seq<E>)
        requires
            self.wf(),
        ensures
            self.enqueue_all(events).wf(),
    {
        let grown = self.enqueue_all(events);
        assert forall|state: S, i: int| 0 <= i < grown.queues[state].len() implies S::state_of(
            &#[trigger] grown.queues[state][i],
        ) == state by {
            if i >= self.queues[state].len() {
                events.lemma_filter_pred(Self::owned_by(state), i - self.queues[state].len());
            }
        }
    }

    /// What `prioritize` returned is the priority.
    pub proof fn lemma_priority_of(consumer: K, event: E, key: P)
        requires
            Self::priorities_fixed(),
            call_ensures(K::prioritize, (&consumer, &event), key),
        ensures
            key == Self::priority_of(consumer, event),
    {
    }

    /// A pass goes on by one invocation.
    pub proof fn lemma_pass_step(self, event: E, order: Seq<usize>, mid: Self, index: usize, post: Self)
        requires
            self.pass(event, order, mid),
            mid.invoked(event, index, post),
        ensures
            self.pass(event, order.push(index), post),
    {
        let longer = order.push(index);
        assert(longer.drop_last() =~= order);
        assert(longer.last() == index);
        assert(self.pass(event, longer.drop_last(), mid));
        assert(mid.invoked(event, longer.last(), post));
    }

    /// The order of dispatch is a total order on the numbers of consumers.
    pub proof fn lemma_goes_before_total(self, event: E)
        requires
            ordered::<P>(),
        ensures
            total_ordering(self.goes_before(event)),
    {
        let before = self.goes_before(event);
        let key = |a: usize| Self::priority_of(self.consumers[a as int], event);
        assert forall|a: usize| #[trigger] before(a, a) by {
            assert(key(a).not_after(&key(a)) || key(a).not_after(&key(a)));
        }
        assert forall|a: usize, b: usize| #[trigger] before(a, b) || #[trigger] before(b, a) by {
            assert(key(a).not_after(&key(b)) || key(b).not_after(&key(a)));
        }
        assert forall|a: usize, b: usize, c: usize| #[trigger]
            before(a, b) && #[trigger] before(b, c) implies before(a, c) by {
            assert(key(a).not_after(&key(b)) && key(b).not_after(&key(c)));
            assert(key(a).not_after(&key(c)));
            if key(c).not_after(&key(a)) {
                assert(key(c).not_after(&key(b)));
                assert(key(b).not_after(&key(a)));
            }
        }
    }

    /// The order of invocation holds the eligible consumers, each as often as
    /// the interest index does, in the order of dispatch; and it is the only
    /// sequence that does.
    pub proof fn lemma_prioritized_is_sorted(self, event: E, order: Seq<usize>)
        requires
            ordered::<P>(),
        ensures
            self.prioritized(event).to_multiset() == self.eligible(S::state_of(&event)).to_multiset(),
            sorted_by(self.prioritized(event), self.goes_before(event)),
            self.consumers.len() <= usize::MAX ==> self.prioritized(event).no_duplicates(),
            order.to_multiset() == self.eligible(S::state_of(&event)).to_multiset() && sorted_by(
                order,
                self.goes_before(event),
            ) ==> order == self.prioritized(event),
    {
        let entries = self.eligible(S::state_of(&event));
        self.lemma_goes_before_total(event);
        entries.lemma_sort_by_ensures(self.goes_before(event));
        if self.consumers.len() <= usize::MAX {
            Self::lemma_eligible_among_ordered(self.consumers, S::state_of(&event));
            entries.lemma_multiset_has_no_duplicates();
            self.prioritized(event).lemma_multiset_has_no_duplicates_conv();
        }
        if order.to_multiset() == entries.to_multiset() && sorted_by(order, self.goes_before(event)) {
            lemma_sorted_unique(order, self.prioritized(event), self.goes_before(event));
        }
    }
}

} // verus!
