use player_db::structures::hash_table::HashTable;

#[test]
fn hash_table_insert() {
    let mut table = HashTable::new(101);
    assert!(table
        .insert(&"Peter Parker".to_string(), "SpiderMan".to_string())
        .is_ok());
    assert!(table
        .insert(&"Tony Stark".to_string(), "IronMan".to_string())
        .is_ok());

    let mut table = HashTable::new(2);
    table
        .insert(&"Peter Parker".to_string(), "SpiderMan".to_string())
        .unwrap();
    table
        .insert(&"Tony Stark".to_string(), "IronMan".to_string())
        .unwrap();
}

#[test]
fn hash_table_getting_elements() {
    let mut table = HashTable::new(3);
    assert!(table
        .insert(&"Peter Parker".to_string(), "SpiderMan".to_string())
        .is_ok());
    assert!(table
        .insert(&"Tony Stark".to_string(), "IronMan".to_string())
        .is_ok());

    println!("{:?}", table);

    assert_eq!(
        table.get(&"Peter Parker".to_string()),
        Some("SpiderMan".to_string())
    );

    let mut table = HashTable::new(1);
    table
        .insert(&"Peter Parker".to_string(), "SpiderMan".to_string())
        .unwrap();
    table
        .insert(&"Tony Stark".to_string(), "IronMan".to_string())
        .unwrap();

    println!("{:?}", table);

    assert_eq!(
        table.get(&"Peter Parker".to_string()),
        Some("SpiderMan".to_string())
    );
}

#[test]
fn hash_table_first_match_wins() {
    let mut table = HashTable::new(7);
    table.insert(&5u32, "first".to_string()).unwrap();
    table.insert(&5u32, "second".to_string()).unwrap();
    assert_eq!(table.get(&5u32), Some("first".to_string()));
    assert!(table.contains_key(&5u32));
    assert!(!table.contains_key(&6u32));
}

#[test]
fn hash_table_get_mut_or_default() {
    let mut table: HashTable<u32, u32> = HashTable::new(11);
    {
        let slot = table.get_mut_or_default(&3).unwrap();
        assert_eq!(*slot, 0);
        *slot = 42;
    }
    assert_eq!(table.get(&3), Some(42));
    {
        let slot = table.get_mut_or_default(&3).unwrap();
        assert_eq!(*slot, 42);
    }
}
