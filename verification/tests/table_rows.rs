use event_dispatch::table::{Key, Table};

#[derive(Clone, Debug, PartialEq, Eq)]
struct Name(&'static str);

impl Key for Name {
    fn same(&self, other: &Self) -> bool {
        self.0 == other.0
    }
}

#[test]
fn a_new_table_has_no_rows() {
    let mut table: Table<Name, u8> = Table::new();
    assert!(table.get(&Name("a")).is_none());
    assert_eq!(table.pop(&Name("a")), None);
}

#[test]
fn push_returns_the_place_in_the_row() {
    let mut table: Table<Name, u8> = Table::new();
    assert_eq!(table.push(Name("a"), 10), 0);
    assert_eq!(table.push(Name("a"), 20), 1);
    assert_eq!(table.push(Name("b"), 30), 0);
    assert_eq!(table.push(Name("a"), 40), 2);
    assert_eq!(table.get(&Name("a")), Some(&vec![10, 20, 40]));
    assert_eq!(table.get(&Name("b")), Some(&vec![30]));
    assert!(table.get(&Name("c")).is_none());
}

#[test]
fn pop_takes_the_newest_item_of_one_row() {
    let mut table: Table<Name, u8> = Table::new();
    table.push(Name("a"), 1);
    table.push(Name("b"), 2);
    table.push(Name("a"), 3);
    assert_eq!(table.pop(&Name("a")), Some(3));
    assert_eq!(table.pop(&Name("a")), Some(1));
    assert_eq!(table.pop(&Name("a")), None);
    assert_eq!(table.get(&Name("a")), Some(&vec![]));
    assert_eq!(table.get(&Name("b")), Some(&vec![2]));
    assert_eq!(table.push(Name("a"), 4), 0);
}

#[test]
fn set_replaces_one_item() {
    let mut table: Table<Name, u8> = Table::new();
    table.push(Name("a"), 1);
    table.push(Name("a"), 2);
    table.push(Name("b"), 3);
    table.set(&Name("a"), 0, 9);
    assert_eq!(table.get(&Name("a")), Some(&vec![9, 2]));
    assert_eq!(table.get(&Name("b")), Some(&vec![3]));
}

#[test]
fn integers_and_characters_are_keys() {
    let mut by_number: Table<u64, &'static str> = Table::new();
    by_number.push(7, "seven");
    by_number.push(8, "eight");
    by_number.push(7, "sept");
    assert_eq!(by_number.get(&7), Some(&vec!["seven", "sept"]));
    assert_eq!(by_number.pop(&8), Some("eight"));
    assert!(7u64.same(&7));
    assert!(!7u64.same(&8));

    let mut by_letter: Table<char, u8> = Table::new();
    by_letter.push('a', 1);
    assert_eq!(by_letter.get(&'a'), Some(&vec![1]));
    assert!(by_letter.get(&'b').is_none());
    assert!(true.same(&true));
    assert!(!true.same(&false));
}
