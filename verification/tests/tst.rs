use player_db::structures::tst::{Tst, TstNode};

#[test]
fn insert_tst() {
    let mut tst = TstNode::<i32>::default();
    tst.insert("bola", 1).unwrap();
    tst.insert("hora", 2).unwrap();
    tst.insert("bala", 2).unwrap();
    tst.insert("terra", 2).unwrap();
    tst.insert("ter", 2).unwrap();
    tst.insert("terroso", 2).unwrap();
    tst.insert("Voar", 2).unwrap();
}

#[test]
fn tst_getting_elements() {
    let mut tst = TstNode::<i32>::default();
    tst.insert("bola", 1).unwrap();
    tst.insert("hora", 2).unwrap();
    tst.insert("bala", 4).unwrap();

    assert_eq!(tst.get(String::from("bola")), Some(1));
    assert_eq!(tst.get(String::from("hora")), Some(2));
    assert_eq!(tst.get(String::from("bala")), Some(4));
    assert_eq!(tst.get(String::from("bolo")), None);
    assert_eq!(tst.get(String::from("b")), None);

    tst.insert("bolo", 5).unwrap();
    tst.insert("bola", 2).unwrap();

    assert_eq!(tst.get(String::from("bola")), Some(2));
    assert_eq!(tst.get(String::from("bolo")), Some(5));
}

#[test]
fn get_from_prefix() {
    let mut tst = TstNode::<i32>::default();
    tst.insert("bola", 1).unwrap();
    tst.insert("bolo", 5).unwrap();
    tst.insert("hora", 2).unwrap();
    tst.insert("bala", 4).unwrap();

    assert_eq!(
        tst.find_from_prefix(String::from("bo")),
        vec![("bola".to_string(), 1), ("bolo".to_string(), 5)]
    );
    assert_eq!(
        tst.find_from_prefix(String::from("b")),
        vec![
            ("bola".to_string(), 1),
            ("bolo".to_string(), 5),
            ("bala".to_string(), 4)
        ]
    );
    assert_eq!(
        tst.find_from_prefix(String::from("h")),
        vec![("hora".to_string(), 2)]
    );
}

#[test]
fn get_words() {
    let mut tst = TstNode::<i32>::default();
    tst.insert("bola", 1).unwrap();
    tst.insert("bolo", 5).unwrap();
    tst.insert("hora", 2).unwrap();
    tst.insert("bala", 4).unwrap();

    assert!(tst.get_words().contains(&("bola".to_string(), 1)));
    assert!(tst.get_words().contains(&("bolo".to_string(), 5)));
    assert!(tst.get_words().contains(&("hora".to_string(), 2)));
    assert!(tst.get_words().contains(&("bala".to_string(), 4)));
}

#[test]
fn tst_struct() {
    let mut tst = Tst::<i32>::new();
    tst.insert(&String::from("bola"), 1).unwrap();
    tst.insert(&String::from("bolo"), 5).unwrap();
    tst.insert(&String::from("hora"), 2).unwrap();
    tst.insert(&String::from("bala"), 4).unwrap();

    assert_eq!(tst.get(String::from("bola")), Some(1));
    assert_eq!(tst.get(String::from("hora")), Some(2));
    assert_eq!(tst.get(String::from("bala")), Some(4));
    assert_eq!(tst.get(String::from("bolo")), Some(5));
    assert_eq!(tst.get(String::from("bolo")), Some(5));
    assert_eq!(tst.get(String::from("b")), None);

    tst.insert(&String::from("bolo"), 5).unwrap();
    tst.insert(&String::from("bola"), 2).unwrap();

    assert_eq!(tst.get(String::from("bola")), Some(2));
    assert_eq!(tst.get(String::from("bolo")), Some(5));

    assert_eq!(
        tst.find_from_prefix(String::from("bo")),
        vec![("bola".to_string(), 2), ("bolo".to_string(), 5)]
    );
    assert_eq!(
        tst.find_from_prefix(String::from("b")),
        vec![
            ("bola".to_string(), 2),
            ("bolo".to_string(), 5),
            ("bala".to_string(), 4)
        ]
    );
    assert_eq!(
        tst.find_from_prefix(String::from("h")),
        vec![("hora".to_string(), 2)]
    );

    assert!(tst.get_words().contains(&("bola".to_string(), 2)));
    assert!(tst.get_words().contains(&("bolo".to_string(), 5)));
    assert!(tst.get_words().contains(&("hora".to_string(), 2)));
    assert!(tst.get_words().contains(&("bala".to_string(), 4)));
}

#[test]
fn test_case_nonsesitive() {
    let mut tst = Tst::<i32>::new();
    tst.insert(&String::from("bola"), 1).unwrap();
    tst.insert(&String::from("bOlo"), 5).unwrap();
    tst.insert(&String::from("hora"), 2).unwrap();

    assert_eq!(tst.get(String::from("Bola")), Some(1));
    assert_eq!(tst.get(String::from("HoRa")), Some(2));
    assert_eq!(tst.get(String::from("bala")), None);
    assert_eq!(tst.get(String::from("BOLO")), Some(5));

    assert_eq!(
        tst.find_from_prefix(String::from("BO")),
        vec![("bola".to_string(), 1), ("bolo".to_string(), 5)]
    );
}

#[test]
fn full_scan_matches_get_words() {
    let mut tst = Tst::<i32>::new();
    tst.insert(&String::from("bola"), 1).unwrap();
    tst.insert(&String::from("terra"), 2).unwrap();
    tst.insert(&String::from("ter"), 3).unwrap();

    let mut all = tst.get_words();
    let mut scan = tst.find_from_prefix(String::new());
    all.sort();
    scan.sort();
    assert_eq!(all, scan);
    assert_eq!(all.len(), 3);
}
