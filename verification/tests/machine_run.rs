use event_dispatch::engine::Engine;
use event_dispatch::event_machine::{Consumer, Event, EventMachine, EventState, Run, Step};
use event_dispatch::priority::DefaultPriority;
use event_dispatch::table::Key;

#[derive(Clone, Copy, Debug, PartialEq, Eq)]
enum Light {
    Off,
    Red,
    Green,
}

impl Key for Light {
    fn same(&self, other: &Self) -> bool {
        self == other
    }
}

#[derive(Clone, Debug, PartialEq, Eq)]
enum Tick {
    Red(u8),
    Green(u8),
}

impl Event for Tick {}

impl EventState<Tick> for Light {
    fn from_event(event: &Tick) -> Self {
        match event {
            Tick::Red(_) => Light::Red,
            Tick::Green(_) => Light::Green,
        }
    }

    fn initial_state() -> Self {
        Light::Off
    }
}

/// Counts the red ticks it sees, and answers each below 3 with the next.
struct Counter {
    seen: Vec<Tick>,
}

impl Consumer<Tick, Light> for Counter {
    fn possible_states(&self) -> Vec<Light> {
        vec![Light::Red]
    }

    fn prioritize(&self, _event: &Tick) -> DefaultPriority {
        DefaultPriority {}
    }

    fn handle_event(&mut self, event: &Tick) -> (Vec<Tick>, Vec<Counter>) {
        self.seen.push(event.clone());
        match event {
            Tick::Red(n) if *n < 3 => (vec![Tick::Red(n + 1)], vec![]),
            Tick::Red(_) => (vec![], vec![]),
            Tick::Green(_) => unreachable!("the counter declared red only"),
        }
    }
}

type Lights = Engine<Tick, Light, Counter>;

fn cycle(state: &Light, engine: &Lights) -> (Option<Light>, Vec<Tick>) {
    match state {
        Light::Off => (Some(Light::Red), vec![Tick::Red(1)]),
        Light::Red => (Some(Light::Green), vec![Tick::Green(1), Tick::Red(9)]),
        // The seed events that come with a halt are dropped.
        Light::Green => {
            if engine.consumers()[0].seen.len() >= 3 {
                (None, vec![Tick::Green(7)])
            } else {
                (Some(Light::Red), vec![])
            }
        }
    }
}

#[test]
fn step_drains_before_it_advances() {
    let mut machine = EventMachine::new(cycle);
    machine.add_consumer(Counter { seen: vec![] });
    assert_eq!(*machine.engine().state(), Light::Off);

    assert_eq!(machine.step(), Step::Advanced);
    assert_eq!(*machine.engine().state(), Light::Red);
    assert_eq!(machine.engine().pending(&Light::Red), 1);

    assert_eq!(machine.step(), Step::Drained { invocations: 1 });
    assert_eq!(machine.step(), Step::Drained { invocations: 1 });
    assert_eq!(machine.step(), Step::Drained { invocations: 1 });
    assert_eq!(machine.engine().pending(&Light::Red), 0);
    assert_eq!(
        machine.engine().consumers()[0].seen,
        vec![Tick::Red(1), Tick::Red(2), Tick::Red(3)]
    );

    assert_eq!(machine.step(), Step::Advanced);
    assert_eq!(*machine.engine().state(), Light::Green);
    // The seed for another state waits there.
    assert_eq!(machine.engine().pending(&Light::Red), 1);
    assert_eq!(machine.engine().pending(&Light::Green), 1);

    // No consumer declared green: the event is taken from the queue and dropped.
    assert_eq!(machine.step(), Step::Drained { invocations: 0 });
    assert_eq!(machine.engine().pending(&Light::Green), 0);

    assert_eq!(machine.step(), Step::Halted);
    assert_eq!(*machine.engine().state(), Light::Green);
    assert_eq!(machine.engine().pending(&Light::Green), 0);
    assert_eq!(machine.engine().pending(&Light::Red), 1);
    // A halted machine halts again when asked again.
    assert_eq!(machine.step(), Step::Halted);
}

#[test]
fn run_halts_when_no_next_state_is_named() {
    let mut machine = EventMachine::new(cycle);
    machine.add_consumer(Counter { seen: vec![] });
    let run = machine.run(100);
    assert_eq!(run, Run { halted: true, steps: 7 });
    assert_eq!(*machine.engine().state(), Light::Green);
    // The event of the state that was not visited again is still waiting.
    assert_eq!(machine.engine().pending(&Light::Red), 1);
}

#[test]
fn run_halts_on_its_last_step() {
    let mut machine = EventMachine::new(cycle);
    machine.add_consumer(Counter { seen: vec![] });
    assert_eq!(machine.run(7), Run { halted: true, steps: 7 });
}

#[test]
fn run_goes_on_where_it_stopped() {
    let mut machine = EventMachine::new(cycle);
    machine.add_consumer(Counter { seen: vec![] });
    assert_eq!(machine.run(6), Run { halted: false, steps: 6 });
    assert_eq!(machine.engine().consumers()[0].seen.len(), 3);
    assert_eq!(machine.run(6), Run { halted: true, steps: 1 });
}

#[test]
fn a_machine_that_always_has_a_next_state_never_halts() {
    let mut machine = EventMachine::new(|state: &Light, _engine: &Lights| match state {
        Light::Off => (Some(Light::Red), vec![]),
        Light::Red => (Some(Light::Green), vec![]),
        Light::Green => (Some(Light::Red), vec![]),
    });
    assert_eq!(machine.run(1001), Run { halted: false, steps: 1001 });
    assert_eq!(*machine.engine().state(), Light::Red);
    assert_eq!(machine.run(0), Run { halted: false, steps: 0 });
    assert_eq!(*machine.engine().state(), Light::Red);
}
