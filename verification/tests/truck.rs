use glory::truck::Truck;

#[test]
fn test_truck() {
    let mut truck = Truck::with_capacity(6);
    assert!(truck.capacity() >= 6);

    truck.insert("one", "ONE".to_owned());
    assert!(truck.contains_key("one"));

    assert_eq!(truck.get::<String>("one").unwrap(), &"ONE".to_owned());
    assert_eq!(truck.get_mut::<String>("one").unwrap(), &mut "ONE".to_owned());
}

#[test]
fn test_transfer() {
    let mut truck = Truck::with_capacity(6);
    truck.insert("one", "ONE".to_owned());

    let truck = truck.transfer();
    assert_eq!(truck.get::<String>("one").unwrap(), &"ONE".to_owned());
}

#[test]
fn truck_get_tells_missing_from_mistyped() {
    let mut truck = Truck::new();
    truck.insert("n", 7u32);
    assert!(matches!(truck.get::<u32>("n"), Ok(&7)));
    assert!(matches!(truck.get::<String>("n"), Err(Some(_))));
    assert!(matches!(truck.get::<u32>("m"), Err(None)));
    assert!(matches!(truck.get_mut::<String>("n"), Err(Some(_))));
    assert!(matches!(truck.get_mut::<u32>("m"), Err(None)));
}

#[test]
fn truck_insert_replaces_under_the_same_key() {
    let mut truck = Truck::new();
    truck.insert("k", 1u8).insert("k", 2u8);
    assert_eq!(truck.len(), 1);
    assert_eq!(truck.get::<u8>("k").unwrap(), &2);
}

#[test]
fn truck_get_mut_changes_in_place() {
    let mut truck = Truck::new();
    truck.insert("k", 1u8);
    *truck.get_mut::<u8>("k").unwrap() += 41;
    assert_eq!(truck.get::<u8>("k").unwrap(), &42);
}

#[test]
fn truck_remove_and_delete() {
    let mut truck = Truck::new();
    truck.insert("a", 1u8).insert("b", "two".to_owned()).insert("c", 3u8);
    assert!(matches!(truck.remove::<u8>("a"), Ok(1)));
    assert!(!truck.contains_key("a"));
    assert!(matches!(truck.remove::<u8>("a"), Err(None)));
    assert!(matches!(truck.remove::<u8>("b"), Err(Some(_))));
    assert!(!truck.contains_key("b"));
    assert!(truck.delete("c"));
    assert!(!truck.delete("c"));
    assert_eq!(truck.len(), 0);
}

#[test]
fn truck_keeps_one_value_per_type() {
    let mut truck = Truck::new();
    assert!(!truck.contains::<u16>());
    truck.inject(5u16).inject(6u16);
    assert!(truck.contains::<u16>());
    assert_eq!(truck.len(), 1);
    assert_eq!(truck.obtain::<u16>().unwrap(), &6);
    *truck.obtain_mut::<u16>().unwrap() = 9;
    assert!(matches!(truck.obtain::<u32>(), Err(None)));
    assert!(matches!(truck.scrape::<u16>(), Ok(9)));
    assert!(matches!(truck.scrape::<u16>(), Err(None)));
}

#[test]
fn truck_transfer_leaves_the_source_empty() {
    let mut truck = Truck::new();
    truck.insert("one", 1i32);
    let moved = truck.transfer();
    assert_eq!(truck.len(), 0);
    assert!(!truck.contains_key("one"));
    assert_eq!(moved.len(), 1);
}

#[test]
fn truck_frees_a_key_whatever_the_type_asked_for() {
    let mut truck = Truck::new();
    truck.insert("a", 1u32).insert("b", 2u32).insert("c", 3u32);
    // The value is no `String`: it is handed back as it was kept, and the key
    // is free all the same; the last key takes its place.
    let gone = truck.remove::<String>("a");
    assert!(matches!(gone, Err(Some(_))));
    assert!(!truck.contains_key("a"));
    assert_eq!(truck.len(), 2);
    assert_eq!(truck.get::<u32>("c").ok(), Some(&3));
    assert_eq!(truck.get::<u32>("b").ok(), Some(&2));
    assert!(matches!(truck.remove::<u32>("a"), Err(None)));
    assert_eq!(truck.remove::<u32>("b").ok(), Some(2));
    assert!(!truck.delete("b"));
    assert!(truck.delete("c"));
    assert_eq!(truck.len(), 0);
}

#[test]
fn truck_shows_what_it_keeps() {
    let mut truck = Truck::new();
    truck.insert("a", 1u32).insert("b", "two").insert("a", 3u32);
    let (keys, values) = truck.inner();
    assert_eq!(keys, &vec!["a".to_owned(), "b".to_owned()]);
    assert_eq!(values.len(), 2);
    let emptied = truck.transfer();
    assert!(truck.inner().0.is_empty());
    assert_eq!(emptied.inner().0.len(), 2);
    assert_eq!(emptied.get::<u32>("a").ok(), Some(&3));
}
