use std::fmt::Debug;

use player_db::structures::btree::{BTree, MAX_KEYS, MID_KEYS};

#[derive(Clone, Eq, PartialEq)]
struct BIG {
    a: [u8; 500],
}

impl Default for BIG {
    fn default() -> Self {
        BIG { a: [0; 500] }
    }
}

impl Debug for BIG {
    fn fmt(&self, f: &mut std::fmt::Formatter<'_>) -> std::fmt::Result {
        f.write_str(&format!("BIG {{ a: [{}; 500] }}", self.a[0]))
    }
}

#[test]
fn insert() {
    let mut tree = BTree::new();
    tree.insert(1, 1);
    tree.insert(2, 2);
    tree.insert(3, 3);
    tree.insert(4, 4);

    println!("{:#?}", tree);
}

#[test]
fn insert_big() {
    let mut tree = BTree::new();
    tree.insert(1, BIG { a: [0; 500] });
    tree.insert(2, BIG { a: [0; 500] });
    tree.insert(3, BIG { a: [0; 500] });
    tree.insert(4, BIG { a: [0; 500] });
    tree.insert(5, BIG { a: [0; 500] });
    tree.insert(7, BIG { a: [0; 500] });
    tree.insert(6, BIG { a: [0; 500] });
    tree.insert(8, BIG { a: [0; 500] });
    tree.insert(-1, BIG { a: [0; 500] });
    tree.insert(0, BIG { a: [0; 500] });
    println!("Order: {:#?} - MAX: {} - MIN : {}", MAX_KEYS + 1, MAX_KEYS, MID_KEYS);

    println!("{:#?}", tree);
}

#[test]
fn find() {
    let mut tree = BTree::new();
    tree.insert(1, 1);
    tree.insert(2, 2);
    tree.insert(3, 3);
    tree.insert(4, 4);

    assert_eq!(tree.find(1), Some(&1));
    assert_eq!(tree.find(2), Some(&2));
    assert_eq!(tree.find(3), Some(&3));
    assert_eq!(tree.find(4), Some(&4));
    assert_eq!(tree.find(5), None);
}

#[test]
fn find_big() {
    let mut tree = BTree::new();
    tree.insert(1, BIG { a: [2; 500] });
    tree.insert(2, BIG { a: [0; 500] });
    tree.insert(3, BIG { a: [0; 500] });
    tree.insert(4, BIG { a: [0; 500] });
    tree.insert(5, BIG { a: [0; 500] });
    tree.insert(7, BIG { a: [6; 500] });
    tree.insert(6, BIG { a: [0; 500] });
    tree.insert(8, BIG { a: [0; 500] });
    tree.insert(-1, BIG { a: [0; 500] });
    tree.insert(0, BIG { a: [0; 500] });
    println!("Order: {:#?} - MAX: {} - MIN : {}", MAX_KEYS + 1, MAX_KEYS, MID_KEYS);

    assert_eq!(tree.find(1), Some(&BIG { a: [2; 500] }));
    assert_eq!(tree.find(2), Some(&BIG { a: [0; 500] }));
    assert_eq!(tree.find(3), Some(&BIG { a: [0; 500] }));
    assert_eq!(tree.find(4), Some(&BIG { a: [0; 500] }));
    assert_eq!(tree.find(5), Some(&BIG { a: [0; 500] }));
    assert_eq!(tree.find(6), Some(&BIG { a: [0; 500] }));
    assert_eq!(tree.find(7), Some(&BIG { a: [6; 500] }));
    assert_eq!(tree.find(8), Some(&BIG { a: [0; 500] }));
    assert_eq!(tree.find(9), None);
}

#[test]
fn get_greatest_n() {
    let mut tree = BTree::new();
    tree.insert(1, 1);
    tree.insert(2, 2);
    tree.insert(3, 3);
    tree.insert(4, 4);
    tree.insert(5, 5);

    assert_eq!(tree.get_greatest_n(3), vec![5, 4, 3]);
    assert_eq!(tree.get_greatest_n(5), vec![5, 4, 3, 2, 1]);
    assert_eq!(tree.get_greatest_n(6), vec![5, 4, 3, 2, 1]);
    assert_eq!(tree.get_greatest_n(0), Vec::<i32>::new());
}

#[test]
fn get_greatest_n_on_empty_tree() {
    let tree = BTree::<i32>::new();
    assert_eq!(tree.get_greatest_n(3), Vec::<i32>::new());
}

#[test]
fn get_greatest_n_big() {
    let mut tree = BTree::new();
    tree.insert(1, BIG { a: [2; 500] });
    tree.insert(2, BIG { a: [0; 500] });
    tree.insert(3, BIG { a: [0; 500] });
    tree.insert(4, BIG { a: [0; 500] });
    tree.insert(5, BIG { a: [0; 500] });
    tree.insert(7, BIG { a: [6; 500] });
    tree.insert(6, BIG { a: [0; 500] });
    tree.insert(8, BIG { a: [9; 500] });
    tree.insert(-1, BIG { a: [0; 500] });
    tree.insert(0, BIG { a: [0; 500] });
    println!("Order: {:#?} - MAX: {} - MIN : {}", MAX_KEYS + 1, MAX_KEYS, MID_KEYS);

    assert_eq!(
        tree.get_greatest_n(3),
        vec![BIG { a: [9; 500] }, BIG { a: [6; 500] }, BIG { a: [0; 500] }]
    );
    assert_eq!(
        tree.get_greatest_n(5),
        vec![
            BIG { a: [9; 500] },
            BIG { a: [6; 500] },
            BIG { a: [0; 500] },
            BIG { a: [0; 500] },
            BIG { a: [0; 500] }
        ]
    );
    assert_eq!(tree.get_greatest_n(0), Vec::<BIG>::new());

    assert_eq!(tree.get_greatest_n(1), vec![BIG { a: [9; 500] }]);
}

#[test]
fn get_all_ascending() {
    let mut tree = BTree::new();
    tree.insert(3, 30u32);
    tree.insert(1, 10);
    tree.insert(2, 20);
    tree.insert(5, 50);
    tree.insert(4, 40);
    assert_eq!(
        tree.get_all(),
        vec![(1, 10), (2, 20), (3, 30), (4, 40), (5, 50)]
    );
}
