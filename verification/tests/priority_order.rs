use event_dispatch::priority::{insertion_point, ConsumerPriority, DefaultPriority};

#[derive(Clone, Copy, Debug, Default, PartialEq, Eq)]
struct Level(u32);

impl ConsumerPriority for Level {
    fn is_not_after(&self, other: &Self) -> bool {
        self.0 <= other.0
    }
}

#[test]
fn insertion_point_is_behind_every_tie() {
    let keys = vec![Level(1), Level(3), Level(3), Level(7)];
    assert_eq!(insertion_point(&keys, &Level(0)), 0);
    assert_eq!(insertion_point(&keys, &Level(1)), 1);
    assert_eq!(insertion_point(&keys, &Level(2)), 1);
    assert_eq!(insertion_point(&keys, &Level(3)), 3);
    assert_eq!(insertion_point(&keys, &Level(7)), 4);
    assert_eq!(insertion_point(&keys, &Level(9)), 4);
    assert_eq!(insertion_point(&Vec::<Level>::new(), &Level(9)), 0);
}

#[test]
fn default_priorities_all_tie() {
    let a = DefaultPriority::default();
    let b = DefaultPriority {};
    assert!(a.is_not_after(&b));
    assert!(b.is_not_after(&a));
    assert_eq!(a, b);
    assert_eq!(insertion_point(&vec![a, b], &DefaultPriority {}), 2);
}

#[test]
fn the_default_key_is_the_default_value() {
    assert_eq!(Level::default(), Level(0));
    assert!(Level::default().is_not_after(&Level(0)));
    assert!(Level::default().is_not_after(&Level(5)));
    assert!(!Level(5).is_not_after(&Level::default()));
}
