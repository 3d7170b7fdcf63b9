use tenancy_sim::table::input_to_hashmap;

#[test]
fn input_to_hashmap_gathers_records() {
    let (table, largest) = input_to_hashmap(&vec![(3, 10), (1, 20), (8, 30)]);
    assert_eq!(table.len(), 3);
    assert_eq!(table.get(&3), Some(&10));
    assert_eq!(table.get(&1), Some(&20));
    assert_eq!(table.get(&8), Some(&30));
    assert_eq!(largest, 8);
}

#[test]
fn input_to_hashmap_lets_the_last_record_win() {
    let (table, largest) = input_to_hashmap(&vec![(5, 1), (2, 7), (5, 9), (2, 0)]);
    assert_eq!(table.len(), 2);
    assert_eq!(table.get(&5), Some(&9));
    assert_eq!(table.get(&2), Some(&0));
    assert_eq!(largest, 5);
}

#[test]
fn input_to_hashmap_of_nothing() {
    let (table, largest) = input_to_hashmap(&vec![]);
    assert!(table.is_empty());
    assert_eq!(largest, 0);
}
