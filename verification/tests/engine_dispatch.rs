use event_dispatch::engine::Engine;
use event_dispatch::event_machine::{Consumer, Event, EventState};
use event_dispatch::priority::ConsumerPriority;
use event_dispatch::table::Key;

#[derive(Clone, Copy, Debug, PartialEq, Eq)]
enum Phase {
    Idle,
    Work,
    Rest,
}

impl Key for Phase {
    fn same(&self, other: &Self) -> bool {
        self == other
    }
}

#[derive(Clone, Debug, PartialEq, Eq)]
enum Signal {
    Work(u32),
    Rest(u32),
}

impl Event for Signal {}

impl EventState<Signal> for Phase {
    fn from_event(event: &Signal) -> Self {
        match event {
            Signal::Work(_) => Phase::Work,
            Signal::Rest(_) => Phase::Rest,
        }
    }

    fn initial_state() -> Self {
        Phase::Idle
    }
}

#[derive(Clone, Copy, Debug, Default, PartialEq, Eq)]
struct Level(i32);

impl ConsumerPriority for Level {
    fn is_not_after(&self, other: &Self) -> bool {
        self.0 <= other.0
    }
}

/// A consumer that writes down what it sees, and can be told what to emit and spawn.
#[derive(Clone, Debug, PartialEq, Eq)]
struct Probe {
    name: &'static str,
    states: Vec<Phase>,
    level: i32,
    seen: Vec<Signal>,
    emits: Vec<Signal>,
    spawns: Vec<Probe>,
}

impl Probe {
    fn new(name: &'static str, states: Vec<Phase>, level: i32) -> Probe {
        Probe { name, states, level, seen: vec![], emits: vec![], spawns: vec![] }
    }
}

impl Consumer<Signal, Phase, Level> for Probe {
    fn possible_states(&self) -> Vec<Phase> {
        self.states.clone()
    }

    fn prioritize(&self, event: &Signal) -> Level {
        match event {
            Signal::Work(_) => Level(self.level),
            Signal::Rest(_) => Level(-self.level),
        }
    }

    fn handle_event(&mut self, event: &Signal) -> (Vec<Signal>, Vec<Probe>) {
        assert!(self.states.contains(&Phase::from_event(event)));
        self.seen.push(event.clone());
        let emits: Vec<Signal> = self.emits.drain(..).collect();
        let spawns: Vec<Probe> = self.spawns.drain(..).collect();
        (emits, spawns)
    }
}

fn names(engine: &Engine<Signal, Phase, Probe, Level>, order: &[usize]) -> Vec<&'static str> {
    order.iter().map(|index| engine.consumers()[*index].name).collect()
}

#[test]
fn a_new_engine_is_empty_and_in_the_initial_state() {
    let mut engine: Engine<Signal, Phase, Probe, Level> = Engine::new();
    assert_eq!(*engine.state(), Phase::Idle);
    assert!(engine.consumers().is_empty());
    assert_eq!(engine.pending(&Phase::Idle), 0);
    assert_eq!(engine.pending(&Phase::Work), 0);
    assert_eq!(engine.dequeue(), None);
    assert!(engine.prioritize_consumers(&Signal::Work(1)).is_empty());
}

#[test]
fn dequeue_returns_the_newest_event_first() {
    let mut engine: Engine<Signal, Phase, Probe, Level> = Engine::new();
    engine.advance(Phase::Work, vec![]);
    engine.enqueue(Signal::Work(1));
    engine.enqueue(Signal::Work(2));
    engine.enqueue(Signal::Work(3));
    assert_eq!(engine.pending(&Phase::Work), 3);
    assert_eq!(engine.dequeue(), Some(Signal::Work(3)));
    assert_eq!(engine.dequeue(), Some(Signal::Work(2)));
    engine.enqueue(Signal::Work(4));
    assert_eq!(engine.dequeue(), Some(Signal::Work(4)));
    assert_eq!(engine.dequeue(), Some(Signal::Work(1)));
    assert_eq!(engine.dequeue(), None);
    assert_eq!(engine.pending(&Phase::Work), 0);
}

#[test]
fn events_of_other_states_wait_for_their_state() {
    let mut engine: Engine<Signal, Phase, Probe, Level> = Engine::new();
    engine.enqueue_all(vec![Signal::Rest(1), Signal::Work(2), Signal::Rest(3), Signal::Work(4)]);
    assert_eq!(engine.pending(&Phase::Work), 2);
    assert_eq!(engine.pending(&Phase::Rest), 2);
    // Nothing waits for the initial state.
    assert_eq!(engine.dequeue(), None);
    engine.advance(Phase::Rest, vec![Signal::Rest(5)]);
    assert_eq!(*engine.state(), Phase::Rest);
    assert_eq!(engine.dequeue(), Some(Signal::Rest(5)));
    assert_eq!(engine.dequeue(), Some(Signal::Rest(3)));
    assert_eq!(engine.dequeue(), Some(Signal::Rest(1)));
    assert_eq!(engine.dequeue(), None);
    // The events of the other state are still there, untouched.
    assert_eq!(engine.pending(&Phase::Work), 2);
    engine.advance(Phase::Work, vec![]);
    assert_eq!(engine.dequeue(), Some(Signal::Work(4)));
    assert_eq!(engine.dequeue(), Some(Signal::Work(2)));
    assert_eq!(engine.dequeue(), None);
}

#[test]
fn only_consumers_that_declared_the_state_are_eligible() {
    let mut engine: Engine<Signal, Phase, Probe, Level> = Engine::new();
    engine.add_consumer(Probe::new("work", vec![Phase::Work], 0));
    engine.add_consumer(Probe::new("rest", vec![Phase::Rest], 0));
    engine.add_consumer(Probe::new("both", vec![Phase::Rest, Phase::Work], 0));
    engine.add_consumer(Probe::new("none", vec![], 0));
    engine.add_consumer(Probe::new("idle", vec![Phase::Idle], 0));
    assert_eq!(engine.prioritize_consumers(&Signal::Work(1)), vec![0, 2]);
    assert_eq!(engine.prioritize_consumers(&Signal::Rest(1)), vec![1, 2]);

    assert_eq!(engine.dispatch(&Signal::Work(7)), 2);
    assert_eq!(engine.dispatch(&Signal::Rest(8)), 2);
    let seen: Vec<Vec<Signal>> = engine.consumers().iter().map(|c| c.seen.clone()).collect();
    assert_eq!(
        seen,
        vec![
            vec![Signal::Work(7)],
            vec![Signal::Rest(8)],
            vec![Signal::Work(7), Signal::Rest(8)],
            vec![],
            vec![],
        ]
    );
}

#[test]
fn an_event_that_no_consumer_claims_is_dropped() {
    let mut engine: Engine<Signal, Phase, Probe, Level> = Engine::new();
    engine.add_consumer(Probe::new("work", vec![Phase::Work], 0));
    assert!(engine.prioritize_consumers(&Signal::Rest(1)).is_empty());
    assert_eq!(engine.dispatch(&Signal::Rest(1)), 0);
    assert!(engine.consumers()[0].seen.is_empty());
    assert_eq!(engine.pending(&Phase::Rest), 0);
}

#[test]
fn consumers_are_ordered_by_ascending_priority() {
    let mut engine: Engine<Signal, Phase, Probe, Level> = Engine::new();
    engine.add_consumer(Probe::new("c", vec![Phase::Work, Phase::Rest], 30));
    engine.add_consumer(Probe::new("a", vec![Phase::Work, Phase::Rest], 10));
    engine.add_consumer(Probe::new("d", vec![Phase::Work, Phase::Rest], 40));
    engine.add_consumer(Probe::new("b", vec![Phase::Work, Phase::Rest], 20));
    let order = engine.prioritize_consumers(&Signal::Work(0));
    assert_eq!(order, vec![1, 3, 0, 2]);
    assert_eq!(names(&engine, &order), vec!["a", "b", "c", "d"]);
    // The priority is asked for each event anew.
    let order = engine.prioritize_consumers(&Signal::Rest(0));
    assert_eq!(names(&engine, &order), vec!["d", "c", "b", "a"]);
}

#[test]
fn tied_priorities_keep_the_order_of_registration() {
    let mut engine: Engine<Signal, Phase, Probe, Level> = Engine::new();
    engine.add_consumer(Probe::new("late-1", vec![Phase::Work], 5));
    engine.add_consumer(Probe::new("early-1", vec![Phase::Work], 1));
    engine.add_consumer(Probe::new("late-2", vec![Phase::Work], 5));
    engine.add_consumer(Probe::new("early-2", vec![Phase::Work], 1));
    engine.add_consumer(Probe::new("late-3", vec![Phase::Work], 5));
    engine.add_consumer(Probe::new("first", vec![Phase::Work], 0));
    let order = engine.prioritize_consumers(&Signal::Work(0));
    assert_eq!(order, vec![5, 1, 3, 0, 2, 4]);
    assert_eq!(
        names(&engine, &order),
        vec!["first", "early-1", "early-2", "late-1", "late-2", "late-3"]
    );
}

#[test]
fn a_state_declared_twice_is_registered_once() {
    let mut engine: Engine<Signal, Phase, Probe, Level> = Engine::new();
    engine.add_consumer(Probe::new("twice", vec![Phase::Work, Phase::Rest, Phase::Work], 2));
    engine.add_consumer(Probe::new("once", vec![Phase::Work], 1));
    engine.add_consumer(Probe::new("thrice", vec![Phase::Rest, Phase::Rest, Phase::Rest], 0));
    assert_eq!(engine.prioritize_consumers(&Signal::Work(0)), vec![1, 0]);
    assert_eq!(engine.prioritize_consumers(&Signal::Rest(0)), vec![0, 2]);
    assert_eq!(engine.dispatch(&Signal::Work(3)), 2);
    assert_eq!(engine.consumers()[0].seen, vec![Signal::Work(3)]);
    assert_eq!(engine.consumers()[1].seen, vec![Signal::Work(3)]);
    assert_eq!(engine.dispatch(&Signal::Rest(4)), 2);
    assert_eq!(engine.consumers()[0].seen, vec![Signal::Work(3), Signal::Rest(4)]);
    assert_eq!(engine.consumers()[2].seen, vec![Signal::Rest(4)]);
}

#[test]
fn add_consumer_returns_the_number_of_the_consumer() {
    let mut engine: Engine<Signal, Phase, Probe, Level> = Engine::new();
    assert_eq!(engine.add_consumer(Probe::new("a", vec![Phase::Work], 0)), 0);
    assert_eq!(engine.add_consumer(Probe::new("b", vec![], 0)), 1);
    assert_eq!(engine.add_consumer(Probe::new("c", vec![Phase::Work, Phase::Work], 0)), 2);
    assert_eq!(engine.consumers()[2].name, "c");
    engine.absorb(vec![], vec![Probe::new("d", vec![Phase::Rest], 0)]);
    assert_eq!(engine.add_consumer(Probe::new("e", vec![Phase::Rest], 0)), 4);
    assert_eq!(engine.consumers()[4].name, "e");
    assert_eq!(engine.prioritize_consumers(&Signal::Rest(0)), vec![3, 4]);
}

/// A consumer that gives no priority of its own.
struct Plain {
    states: Vec<Phase>,
    seen: Vec<Signal>,
}

impl Consumer<Signal, Phase, Level> for Plain {
    fn possible_states(&self) -> Vec<Phase> {
        self.states.clone()
    }

    fn handle_event(&mut self, event: &Signal) -> (Vec<Signal>, Vec<Plain>) {
        self.seen.push(event.clone());
        (vec![], vec![])
    }
}

#[test]
fn consumers_without_a_priority_of_their_own_all_tie() {
    let plain = Plain { states: vec![Phase::Work], seen: vec![] };
    assert_eq!(plain.prioritize(&Signal::Work(1)), Level::default());
    assert_eq!(plain.prioritize(&Signal::Rest(1)), Level(0));

    let mut engine: Engine<Signal, Phase, Plain, Level> = Engine::new();
    engine.add_consumer(Plain { states: vec![Phase::Work], seen: vec![] });
    engine.add_consumer(Plain { states: vec![Phase::Rest], seen: vec![] });
    engine.add_consumer(Plain { states: vec![Phase::Work, Phase::Rest], seen: vec![] });
    engine.add_consumer(Plain { states: vec![Phase::Work], seen: vec![] });
    assert_eq!(engine.prioritize_consumers(&Signal::Work(0)), vec![0, 2, 3]);
    assert_eq!(engine.prioritize_consumers(&Signal::Rest(0)), vec![1, 2]);
    assert_eq!(engine.dispatch(&Signal::Work(5)), 3);
    assert_eq!(engine.consumers()[1].seen, vec![]);
    assert_eq!(engine.consumers()[3].seen, vec![Signal::Work(5)]);
}

#[test]
fn absorb_registers_and_enqueues_in_order() {
    let mut engine: Engine<Signal, Phase, Probe, Level> = Engine::new();
    engine.add_consumer(Probe::new("old", vec![Phase::Work], 0));
    engine.absorb(
        vec![Signal::Work(1), Signal::Rest(2), Signal::Work(3)],
        vec![Probe::new("new-1", vec![Phase::Work], 0), Probe::new("new-2", vec![Phase::Work], 0)],
    );
    let all: Vec<usize> = (0..engine.consumers().len()).collect();
    assert_eq!(names(&engine, &all), vec!["old", "new-1", "new-2"]);
    assert_eq!(engine.prioritize_consumers(&Signal::Work(0)), vec![0, 1, 2]);
    assert_eq!(engine.pending(&Phase::Work), 2);
    assert_eq!(engine.pending(&Phase::Rest), 1);
    engine.advance(Phase::Work, vec![]);
    assert_eq!(engine.dequeue(), Some(Signal::Work(3)));
    assert_eq!(engine.dequeue(), Some(Signal::Work(1)));
}

#[test]
fn a_spawned_consumer_is_eligible_after_the_pass_and_not_in_it() {
    let mut engine: Engine<Signal, Phase, Probe, Level> = Engine::new();
    let mut parent = Probe::new("parent", vec![Phase::Work], 1);
    // The child would go first by priority, were it part of the pass.
    parent.spawns = vec![Probe::new("child", vec![Phase::Work], 0)];
    parent.emits = vec![Signal::Work(2)];
    engine.add_consumer(parent);
    engine.add_consumer(Probe::new("sibling", vec![Phase::Work], 2));

    assert_eq!(engine.dispatch(&Signal::Work(1)), 2);
    let all: Vec<usize> = (0..engine.consumers().len()).collect();
    assert_eq!(names(&engine, &all), vec!["parent", "sibling", "child"]);
    assert_eq!(engine.consumers()[0].seen, vec![Signal::Work(1)]);
    assert_eq!(engine.consumers()[1].seen, vec![Signal::Work(1)]);
    assert!(engine.consumers()[2].seen.is_empty());
    assert_eq!(engine.pending(&Phase::Work), 1);

    // From the next event on the child is invoked, in its place by priority.
    let order = engine.prioritize_consumers(&Signal::Work(2));
    assert_eq!(names(&engine, &order), vec!["child", "parent", "sibling"]);
    assert_eq!(engine.dispatch(&Signal::Work(2)), 3);
    assert_eq!(engine.consumers()[2].seen, vec![Signal::Work(2)]);
    assert_eq!(engine.consumers()[0].seen, vec![Signal::Work(1), Signal::Work(2)]);
}
