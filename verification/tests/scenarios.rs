use im_btree::{DiffItem, DiffIter, Insert, Iter, Node, Remove};

type Tree = Node<u64, 4>;

fn scenario_insert(root: &mut Tree, value: u64) -> Option<u64> {
    match root.insert(value) {
        Insert::Added => None,
        Insert::Replaced(old) => Some(old),
        Insert::Update(_) => unreachable!(),
        Insert::Split(left, median, right) => {
            *root = Node::from_split(left, median, right);
            None
        }
    }
}

fn scenario_remove(root: &mut Tree, key: u64) -> Option<u64> {
    match root.remove(&key) {
        Remove::NoChange => None,
        Remove::Removed(old) => Some(old),
        Remove::Update(old, new_root) => {
            *root = new_root;
            Some(old)
        }
    }
}

fn scenario_tree(values: &[u64]) -> Tree {
    let mut root = Tree::new();
    for v in values {
        scenario_insert(&mut root, *v);
    }
    root
}

fn scenario_in_order(root: &Tree) -> Vec<u64> {
    let mut out = Vec::new();
    let mut it = Iter::new(root);
    while let Some(v) = it.next() {
        out.push(*v);
    }
    out
}

#[test]
fn leaf_only_insert() {
    let root = scenario_tree(&[3, 1, 2]);
    assert_eq!(root.len(), 3);
    assert_eq!(scenario_in_order(&root), vec![1, 2, 3]);
    assert_eq!(root.depth(), 1);
    assert_eq!(root.keys(), &[1, 2, 3]);
}

#[test]
fn split_propagation() {
    let mut root = scenario_tree(&[1, 2, 3, 4]);
    assert_eq!(root.depth(), 1);
    assert_eq!(root.keys(), &[1, 2, 3, 4]);
    match root.insert(5) {
        Insert::Split(left, median, right) => {
            assert_eq!(left.keys(), &[1, 2]);
            assert_eq!(median, 3);
            assert_eq!(right.keys(), &[4, 5]);
            assert_eq!(left.len(), 2);
            assert_eq!(right.len(), 2);
            root = Node::from_split(left, median, right);
        }
        _ => panic!("the full leaf must split"),
    }
    assert_eq!(root.keys(), &[3]);
    assert_eq!(root.slot_count(), 2);
    assert_eq!(root.child(0).unwrap().keys(), &[1, 2]);
    assert_eq!(root.child(1).unwrap().keys(), &[4, 5]);
    assert_eq!(root.len(), 5);
    assert_eq!(root.depth(), 2);
    assert_eq!(scenario_in_order(&root), vec![1, 2, 3, 4, 5]);
}

#[test]
fn duplicate_insert() {
    let mut root = scenario_tree(&[1, 2, 3, 4, 5]);
    match root.insert(3) {
        Insert::Replaced(old) => assert_eq!(old, 3),
        _ => panic!("3 is in the tree"),
    }
    assert_eq!(root.keys(), &[3]);
    assert_eq!(root.child(0).unwrap().keys(), &[1, 2]);
    assert_eq!(root.child(1).unwrap().keys(), &[4, 5]);
    assert_eq!(root.len(), 5);
    assert_eq!(root.depth(), 2);
}

#[test]
fn merge_on_remove() {
    let mut root = scenario_tree(&[1, 2, 3, 4, 5]);
    // The right child has keys to spare, so it gives up 4 and is left with
    // one key, which is too few to give up another.
    match root.remove(&4) {
        Remove::Removed(old) => assert_eq!(old, 4),
        _ => panic!("4 is in the tree"),
    }
    assert_eq!(root.len(), 4);
    assert_eq!(scenario_in_order(&root), vec![1, 2, 3, 5]);
    assert_eq!(root.keys(), &[3]);
    assert_eq!(root.child(0).unwrap().keys(), &[1, 2]);
    assert_eq!(root.child(1).unwrap().keys(), &[5]);
    // The next removal from that child first steals through the separator.
    assert_eq!(scenario_remove(&mut root, 5), Some(5));
    assert_eq!(root.keys(), &[2]);
    assert_eq!(root.child(0).unwrap().keys(), &[1]);
    assert_eq!(root.child(1).unwrap().keys(), &[3]);
    assert_eq!(root.depth(), 2);
    // With both children too small the two merge through the separator, and
    // the merged leaf is the new root.
    match root.remove(&1) {
        Remove::Update(old, new_root) => {
            assert_eq!(old, 1);
            root = new_root;
        }
        _ => panic!("the root must give way to the merged leaf"),
    }
    assert_eq!(root.keys(), &[2, 3]);
    assert_eq!(root.depth(), 1);
    assert_eq!(root.len(), 2);
    assert_eq!(scenario_in_order(&root), vec![2, 3]);
}

#[test]
fn merge_first_makes_single_leaf() {
    let mut root = scenario_tree(&[1, 2, 3, 4, 5]);
    assert_eq!(scenario_remove(&mut root, 4), Some(4));
    assert_eq!(scenario_remove(&mut root, 2), Some(2));
    // Children [1] and [5] around 3: removing 5 merges them through 3.
    assert_eq!(root.child(0).unwrap().keys(), &[1]);
    assert_eq!(root.child(1).unwrap().keys(), &[5]);
    assert_eq!(scenario_remove(&mut root, 5), Some(5));
    assert_eq!(root.keys(), &[1, 3]);
    assert_eq!(root.depth(), 1);
    assert_eq!(root.len(), 2);
}

#[test]
fn remove_absent_key() {
    let mut root = scenario_tree(&[1, 2, 3, 4, 5]);
    let copy = root.clone();
    assert!(matches!(root.remove(&99), Remove::NoChange));
    assert_eq!(root.len(), 5);
    assert_eq!(root.depth(), 2);
    assert_eq!(root.keys(), copy.keys());
    assert_eq!(root.child(0).unwrap().keys(), &[1, 2]);
    assert_eq!(root.child(1).unwrap().keys(), &[4, 5]);
    assert_eq!(scenario_in_order(&root), scenario_in_order(&copy));
    assert!(matches!(root.remove(&0), Remove::NoChange));
    assert_eq!(scenario_in_order(&root), vec![1, 2, 3, 4, 5]);
}

#[test]
fn diff_scenario() {
    let old = scenario_tree(&[1, 2, 3, 4, 5]);
    let new = scenario_tree(&[1, 2, 3, 5, 6]);
    let mut it = DiffIter::new(&old, &new);
    let first = it.next().unwrap();
    assert!(first == DiffItem::Remove(&4));
    let second = it.next().unwrap();
    assert!(second == DiffItem::Add(&6));
    assert!(it.next().is_none());
    assert!(it.next().is_none());
}
