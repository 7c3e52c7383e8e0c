use im_btree::{BTreeValue, ConsumingIter, DiffItem, DiffIter, Insert, Iter, Node, Pair, Remove};
use std::cmp::Ordering;
use std::collections::{BTreeMap, BTreeSet};

fn put<A: BTreeValue, const B: usize>(root: &mut Node<A, B>, value: A) -> Option<A> {
    match root.insert(value) {
        Insert::Added => None,
        Insert::Replaced(old) => Some(old),
        Insert::Update(_) => unreachable!(),
        Insert::Split(left, median, right) => {
            *root = Node::from_split(left, median, right);
            None
        }
    }
}

fn take<A: BTreeValue, const B: usize>(root: &mut Node<A, B>, key: &A::Key) -> Option<A> {
    match root.remove(key) {
        Remove::NoChange => None,
        Remove::Removed(old) => Some(old),
        Remove::Update(old, new_root) => {
            *root = new_root;
            Some(old)
        }
    }
}

fn forward<const B: usize>(root: &Node<u64, B>) -> Vec<u64> {
    let mut out = Vec::new();
    let mut it = Iter::new(root);
    while let Some(v) = it.next() {
        out.push(*v);
    }
    out
}

fn backward<const B: usize>(root: &Node<u64, B>) -> Vec<u64> {
    let mut out = Vec::new();
    let mut it = Iter::new(root);
    while let Some(v) = it.next_back() {
        out.push(*v);
    }
    out
}

/// Checks every invariant of the subtree and returns its depth and the
/// number of its elements.
fn check_node<const B: usize>(
    node: &Node<u64, B>,
    is_root: bool,
    lower: Option<u64>,
    upper: Option<u64>,
) -> (usize, usize) {
    let median = (B + 1) / 2;
    let keys = node.keys();
    assert_eq!(node.slot_count(), keys.len() + 1);
    assert!(keys.len() <= B);
    if !is_root {
        assert!(keys.len() + 1 >= median);
        assert!(keys.len() >= 1);
    }
    for pair in keys.windows(2) {
        assert!(pair[0] < pair[1]);
    }
    if let Some(lo) = lower {
        assert!(keys.iter().all(|k| lo < *k));
    }
    if let Some(hi) = upper {
        assert!(keys.iter().all(|k| *k < hi));
    }
    let filled = (0..node.slot_count()).filter(|i| node.child(*i).is_some()).count();
    assert!(filled == 0 || filled == node.slot_count());
    let mut total = keys.len();
    let mut depth_below: Option<usize> = None;
    for i in 0..node.slot_count() {
        if let Some(child) = node.child(i) {
            let lo = if i == 0 { lower } else { Some(keys[i - 1]) };
            let hi = if i == keys.len() { upper } else { Some(keys[i]) };
            let (depth, count) = check_node(child, false, lo, hi);
            match depth_below {
                None => depth_below = Some(depth),
                Some(d) => assert_eq!(d, depth),
            }
            total += count;
        }
    }
    if filled > 0 {
        assert!(keys.len() >= 1);
    }
    assert_eq!(node.len(), total);
    (depth_below.unwrap_or(0) + 1, total)
}

fn check_tree<const B: usize>(root: &Node<u64, B>) {
    let (depth, count) = check_node(root, true, None, None);
    assert_eq!(depth, root.depth());
    assert_eq!(count, root.len());
}

fn next_random(state: &mut u64) -> u64 {
    *state = state.wrapping_mul(6364136223846793005).wrapping_add(1442695040888963407);
    *state >> 33
}

fn churn<const B: usize>(seed: u64, steps: usize, span: u64) {
    let mut state = seed;
    let mut root: Node<u64, B> = Node::new();
    let mut model: BTreeSet<u64> = BTreeSet::new();
    for _ in 0..steps {
        let value = next_random(&mut state) % span;
        let choice = next_random(&mut state) % 3;
        if choice < 2 {
            let was = put(&mut root, value);
            assert_eq!(was.is_some(), !model.insert(value));
            if let Some(old) = was {
                assert_eq!(old, value);
            }
        } else {
            let found = root.lookup(&value).is_some();
            let was = take(&mut root, &value);
            assert_eq!(found, was.is_some());
            assert_eq!(was.is_some(), model.remove(&value));
        }
        check_tree(&root);
        assert_eq!(root.len(), model.len());
        assert_eq!(root.min().copied(), model.iter().next().copied());
        assert_eq!(root.max().copied(), model.iter().next_back().copied());
    }
    let expect: Vec<u64> = model.iter().copied().collect();
    assert_eq!(forward(&root), expect);
    for v in 0..span {
        assert_eq!(root.lookup(&v).copied(), model.get(&v).copied());
    }
    // Empty the tree again, from the least key up.
    for v in expect {
        assert_eq!(take(&mut root, &v), Some(v));
        check_tree(&root);
    }
    assert_eq!(root.len(), 0);
    assert_eq!(root.depth(), 1);
}

#[test]
fn invariants_hold_after_every_operation_fanout_four() {
    churn::<4>(1, 3000, 200);
    churn::<4>(2, 3000, 60);
}

#[test]
fn invariants_hold_after_every_operation_fanout_six() {
    churn::<6>(3, 3000, 400);
}

#[test]
fn invariants_hold_after_every_operation_fanout_sixty_four() {
    churn::<64>(4, 6000, 3000);
}

#[test]
fn ascending_then_descending_removal_keeps_invariants() {
    let mut root: Node<u64, 4> = Node::new();
    for v in 0..500 {
        assert_eq!(put(&mut root, v), None);
        check_tree(&root);
    }
    assert!(root.depth() >= 4);
    for v in (0..500).rev() {
        assert_eq!(take(&mut root, &v), Some(v));
        check_tree(&root);
    }
    assert_eq!(root.len(), 0);
}

#[test]
fn removing_keys_of_inner_nodes_keeps_invariants() {
    // Full nodes on every level, then the keys of the upper levels go first.
    let mut root: Node<u64, 4> = Node::new();
    for v in 0..400 {
        put(&mut root, v * 2);
    }
    for v in 0..400 {
        put(&mut root, v * 2 + 1);
    }
    check_tree(&root);
    let mut model: BTreeSet<u64> = (0..800).collect();
    for round in 0..200 {
        let key = root.keys()[round % root.keys().len()];
        assert_eq!(take(&mut root, &key), Some(key));
        assert!(model.remove(&key));
        check_tree(&root);
        if root.depth() > 1 {
            let child = root.child(round % root.slot_count()).unwrap();
            let inner = child.keys()[0];
            assert_eq!(take(&mut root, &inner), Some(inner));
            assert!(model.remove(&inner));
            check_tree(&root);
        }
    }
    let expect: Vec<u64> = model.iter().copied().collect();
    assert_eq!(forward(&root), expect);
}

#[test]
fn empty_tree() {
    let mut root: Node<u64, 4> = Node::new();
    assert_eq!(root.len(), 0);
    assert_eq!(root.depth(), 1);
    assert_eq!(root.min(), None);
    assert_eq!(root.max(), None);
    assert_eq!(root.lookup(&7), None);
    assert!(matches!(root.remove(&7), Remove::NoChange));
    assert_eq!(root.keys().len(), 0);
    assert_eq!(root.slot_count(), 1);
    assert!(root.child(0).is_none());
    assert_eq!(forward(&root), Vec::<u64>::new());
    assert_eq!(backward(&root), Vec::<u64>::new());
    let mut it = Iter::new(&root);
    assert_eq!(it.size_hint(), (0, Some(0)));
    assert!(it.next().is_none());
    assert!(it.next_back().is_none());
    let mut owned = ConsumingIter::new(&root);
    assert!(owned.next().is_none());
    let mut changes = DiffIter::new(&root, &root);
    assert!(changes.next().is_none());
}

#[test]
fn unit_tree() {
    let root: Node<u64, 4> = Node::unit(9);
    assert_eq!(root.len(), 1);
    assert_eq!(root.keys(), &[9]);
    assert_eq!(root.slot_count(), 2);
    assert_eq!(root.min(), Some(&9));
    assert_eq!(root.max(), Some(&9));
    assert_eq!(root.lookup(&9), Some(&9));
    assert_eq!(root.lookup(&8), None);
    check_tree(&root);
}

#[test]
fn from_split_makes_a_root() {
    let mut left: Node<u64, 4> = Node::new();
    put(&mut left, 1);
    put(&mut left, 2);
    let mut right: Node<u64, 4> = Node::new();
    put(&mut right, 7);
    put(&mut right, 8);
    let root = Node::from_split(left, 5, right);
    assert_eq!(root.len(), 5);
    assert_eq!(root.depth(), 2);
    assert_eq!(root.keys(), &[5]);
    assert_eq!(forward(&root), vec![1, 2, 5, 7, 8]);
    check_tree(&root);
}

#[test]
fn insert_twice_replaces_and_changes_nothing() {
    let mut root: Node<u64, 4> = Node::new();
    for v in [10, 4, 8, 1, 12, 6, 3, 9, 20, 15, 2] {
        put(&mut root, v);
    }
    for v in [10, 4, 8, 1, 12, 6, 3, 9, 20, 15, 2] {
        let before = forward(&root);
        let depth = root.depth();
        match root.insert(v) {
            Insert::Replaced(old) => assert_eq!(old, v),
            _ => panic!("the value is in the tree"),
        }
        assert_eq!(forward(&root), before);
        assert_eq!(root.depth(), depth);
        assert_eq!(root.len(), before.len());
        check_tree(&root);
    }
}

#[test]
fn replaced_gives_back_the_old_value_of_the_key() {
    let mut root: Node<Pair, 4> = Node::new();
    for k in 0..40 {
        assert_eq!(put(&mut root, Pair { key: k, value: k * 10 }), None);
    }
    for k in 0..40 {
        assert_eq!(
            put(&mut root, Pair { key: k, value: k + 1 }),
            Some(Pair { key: k, value: k * 10 })
        );
        assert_eq!(root.lookup(&k), Some(&Pair { key: k, value: k + 1 }));
    }
    assert_eq!(root.len(), 40);
    assert_eq!(take(&mut root, &7), Some(Pair { key: 7, value: 8 }));
    assert_eq!(root.lookup(&7), None);
    assert_eq!(root.len(), 39);
}

#[test]
fn remove_after_insert_gives_the_value_back_and_restores_the_size() {
    let mut root: Node<u64, 4> = Node::new();
    for v in 0..50 {
        put(&mut root, v * 3);
    }
    for v in 0..50 {
        let size = root.len();
        let before = forward(&root);
        let value = v * 3 + 1;
        assert_eq!(put(&mut root, value), None);
        assert_eq!(root.len(), size + 1);
        match root.remove(&value) {
            Remove::Removed(old) => assert_eq!(old, value),
            Remove::Update(old, new_root) => {
                assert_eq!(old, value);
                root = new_root;
            }
            Remove::NoChange => panic!("the value was just inserted"),
        }
        assert_eq!(root.len(), size);
        assert_eq!(forward(&root), before);
        check_tree(&root);
    }
}

#[test]
fn lookup_finds_what_remove_would_take() {
    let mut root: Node<u64, 4> = Node::new();
    for v in 0..60 {
        put(&mut root, v * 2);
    }
    for k in 0..130 {
        let found = root.lookup(&k).copied();
        let mut copy = root.clone();
        let taken = take(&mut copy, &k);
        assert_eq!(found, taken);
        assert_eq!(found.is_some(), k % 2 == 0 && k < 120);
    }
}

#[test]
fn forward_ascends_and_backward_is_its_reverse() {
    let mut root: Node<u64, 4> = Node::new();
    let mut state = 11;
    for _ in 0..300 {
        put(&mut root, next_random(&mut state) % 1000);
    }
    let ahead = forward(&root);
    for pair in ahead.windows(2) {
        assert!(pair[0] < pair[1]);
    }
    assert_eq!(ahead.len(), root.len());
    let mut behind = backward(&root);
    behind.reverse();
    assert_eq!(ahead, behind);
}

#[test]
fn both_ends_meet_without_handing_an_element_out_twice() {
    for size in 0..40u64 {
        let mut root: Node<u64, 4> = Node::new();
        for v in 0..size {
            put(&mut root, v);
        }
        for pattern in 0..4u64 {
            let mut it = Iter::new(&root);
            let mut front = Vec::new();
            let mut back = Vec::new();
            let mut step = 0u64;
            loop {
                let remaining = it.size_hint().0;
                assert_eq!(remaining as u64, size - (front.len() + back.len()) as u64);
                let from_front = match pattern {
                    0 => step % 2 == 0,
                    1 => step % 3 != 0,
                    2 => step % 3 == 0,
                    _ => step % 5 < 2,
                };
                let item = if from_front { it.next() } else { it.next_back() };
                match item {
                    Some(v) => {
                        if from_front {
                            front.push(*v);
                        } else {
                            back.push(*v);
                        }
                    }
                    None => break,
                }
                step += 1;
            }
            assert!(it.next().is_none());
            assert!(it.next_back().is_none());
            assert_eq!(it.size_hint(), (0, Some(0)));
            back.reverse();
            front.extend(back);
            let expect: Vec<u64> = (0..size).collect();
            assert_eq!(front, expect);
        }
    }
}

#[test]
fn owning_traversal_hands_out_every_element_once() {
    let mut root: Node<u64, 4> = Node::new();
    for v in 0..100 {
        put(&mut root, (v * 37) % 101);
    }
    let expect = forward(&root);
    let mut it = ConsumingIter::new(&root);
    assert_eq!(it.size_hint(), (100, Some(100)));
    let mut out = Vec::new();
    while let Some(v) = it.next() {
        out.push(v);
    }
    assert_eq!(out, expect);
    let mut it = ConsumingIter::new(&root);
    let mut out = Vec::new();
    while let Some(v) = it.next_back() {
        out.push(v);
    }
    out.reverse();
    assert_eq!(out, expect);
    let mut it = ConsumingIter::new(&root);
    let mut front = Vec::new();
    let mut back = Vec::new();
    loop {
        match it.next() {
            Some(v) => front.push(v),
            None => break,
        }
        match it.next_back() {
            Some(v) => back.push(v),
            None => break,
        }
    }
    assert!(it.next().is_none());
    back.reverse();
    front.extend(back);
    assert_eq!(front, expect);
    // The tree that was traversed is untouched.
    assert_eq!(forward(&root), expect);
    check_tree(&root);
}

#[test]
fn differences_patch_the_old_tree_into_the_new_one() {
    let mut state = 5;
    for round in 0..30 {
        let mut old: Node<Pair, 4> = Node::new();
        let mut new: Node<Pair, 4> = Node::new();
        let mut old_model: BTreeMap<u64, u64> = BTreeMap::new();
        let mut new_model: BTreeMap<u64, u64> = BTreeMap::new();
        for _ in 0..(round * 7) {
            let key = next_random(&mut state) % 120;
            let value = next_random(&mut state) % 3;
            put(&mut old, Pair { key, value });
            old_model.insert(key, value);
            let key = next_random(&mut state) % 120;
            let value = next_random(&mut state) % 3;
            put(&mut new, Pair { key, value });
            new_model.insert(key, value);
        }
        let mut patched = old_model.clone();
        let mut last_key: Option<u64> = None;
        let mut it = DiffIter::new(&old, &new);
        while let Some(change) = it.next() {
            let key = match change {
                DiffItem::Add(v) => {
                    assert!(patched.insert(v.key, v.value).is_none());
                    v.key
                }
                DiffItem::Update { old: o, new: n } => {
                    assert_eq!(o.key, n.key);
                    assert!(o.value != n.value);
                    assert_eq!(patched.insert(n.key, n.value), Some(o.value));
                    n.key
                }
                DiffItem::Remove(v) => {
                    assert_eq!(patched.remove(&v.key), Some(v.value));
                    v.key
                }
            };
            if let Some(last) = last_key {
                assert!(last < key);
            }
            last_key = Some(key);
        }
        assert_eq!(patched, new_model);
    }
}

#[test]
fn difference_of_a_tree_with_itself_is_empty() {
    let mut root: Node<u64, 4> = Node::new();
    for v in 0..77 {
        put(&mut root, v);
    }
    let copy = root.clone();
    let mut it = DiffIter::new(&root, &copy);
    assert!(it.next().is_none());
    let empty: Node<u64, 4> = Node::new();
    let mut it = DiffIter::new(&empty, &root);
    let mut added = Vec::new();
    while let Some(change) = it.next() {
        match change {
            DiffItem::Add(v) => added.push(*v),
            _ => panic!("only additions"),
        }
    }
    assert_eq!(added, forward(&root));
    let mut it = DiffIter::new(&root, &empty);
    let mut removed = Vec::new();
    while let Some(change) = it.next() {
        match change {
            DiffItem::Remove(v) => removed.push(*v),
            _ => panic!("only removals"),
        }
    }
    assert_eq!(removed, forward(&root));
}

#[test]
fn update_is_reported_for_equal_keys_with_unequal_values() {
    let mut old: Node<Pair, 4> = Node::new();
    let mut new: Node<Pair, 4> = Node::new();
    for k in 0..10 {
        put(&mut old, Pair { key: k, value: 0 });
        put(&mut new, Pair { key: k, value: if k == 6 { 1 } else { 0 } });
    }
    let mut it = DiffIter::new(&old, &new);
    let change = it.next().unwrap();
    assert!(
        change
            == DiffItem::Update {
                old: &Pair { key: 6, value: 0 },
                new: &Pair { key: 6, value: 1 }
            }
    );
    assert!(it.next().is_none());
}

#[test]
fn mutating_a_copy_leaves_the_tree_alone() {
    let mut root: Node<u64, 4> = Node::new();
    for v in 0..200 {
        put(&mut root, v * 2);
    }
    let before = forward(&root);
    let mut copy = root.clone();
    for v in 0..200 {
        put(&mut copy, v * 2 + 1);
    }
    for v in 0..100 {
        assert_eq!(take(&mut copy, &(v * 4)), Some(v * 4));
    }
    check_tree(&copy);
    check_tree(&root);
    assert_eq!(forward(&root), before);
    for v in 0..400 {
        assert_eq!(root.lookup(&v).is_some(), v % 2 == 0);
        assert_eq!(copy.lookup(&v).is_some(), v % 2 == 1 || v % 4 == 2);
    }
    // And the other way round.
    let snapshot = copy.clone();
    let expect = forward(&snapshot);
    for v in 0..400 {
        take(&mut copy, &v);
    }
    assert_eq!(copy.len(), 0);
    assert_eq!(forward(&snapshot), expect);
    check_tree(&snapshot);
}

#[test]
fn minimum_and_maximum() {
    let mut root: Node<u64, 4> = Node::new();
    for v in [50, 20, 80, 10, 90, 30, 70, 60, 40, 5, 95] {
        put(&mut root, v);
        check_tree(&root);
    }
    assert_eq!(root.min(), Some(&5));
    assert_eq!(root.max(), Some(&95));
    take(&mut root, &5);
    take(&mut root, &95);
    assert_eq!(root.min(), Some(&10));
    assert_eq!(root.max(), Some(&90));
}

#[test]
fn the_orders_of_the_element_types() {
    assert_eq!(3u64.cmp_keys(&4), Ordering::Less);
    assert_eq!(4u64.cmp_keys(&4), Ordering::Equal);
    assert_eq!(5u64.cmp_values(&4), Ordering::Greater);
    assert!(7u64.ptr_eq(&7));
    assert!(!7u64.ptr_eq(&8));
    let slice = [1u64, 3, 5, 7];
    assert_eq!(u64::search_key(&slice, &5), Ok(2));
    assert_eq!(u64::search_key(&slice, &0), Err(0));
    assert_eq!(u64::search_key(&slice, &4), Err(2));
    assert_eq!(u64::search_value(&slice, &8), Err(4));
    assert_eq!(u64::search_value(&slice, &1), Ok(0));
    let empty: [u64; 0] = [];
    assert_eq!(u64::search_key(&empty, &1), Err(0));
    let a = Pair { key: 1, value: 9 };
    let b = Pair { key: 1, value: 2 };
    let c = Pair { key: 2, value: 0 };
    assert_eq!(a.cmp_values(&b), Ordering::Equal);
    assert_eq!(a.cmp_values(&c), Ordering::Less);
    assert_eq!(c.cmp_keys(&1), Ordering::Greater);
    assert!(!a.ptr_eq(&b));
    assert!(a.ptr_eq(&a));
    let pairs = [a, c];
    assert_eq!(Pair::search_key(&pairs, &2), Ok(1));
    assert_eq!(Pair::search_value(&pairs, &b), Ok(0));
    assert_eq!(Pair::search_key(&pairs, &3), Err(2));
}

#[test]
fn lookup_mut_changes_the_element_in_place() {
    let mut root: Node<Pair, 4> = Node::new();
    for k in 0..100 {
        put(&mut root, Pair { key: k, value: 0 });
    }
    let copy = root.clone();
    for k in 0..100 {
        match root.lookup_mut(&k) {
            Some(v) => {
                assert_eq!(*v, Pair { key: k, value: 0 });
                v.value = k + 1;
            }
            None => panic!("the key is in the tree"),
        }
    }
    assert!(root.lookup_mut(&100).is_none());
    assert!(root.lookup_mut(&1000).is_none());
    for k in 0..100 {
        assert_eq!(root.lookup(&k), Some(&Pair { key: k, value: k + 1 }));
        // The copy shared every node with the tree and has seen no change.
        assert_eq!(copy.lookup(&k), Some(&Pair { key: k, value: 0 }));
    }
    assert_eq!(root.len(), 100);
    assert_eq!(copy.len(), 100);
    let mut empty: Node<Pair, 4> = Node::new();
    assert!(empty.lookup_mut(&1).is_none());
}

fn least_keys_below_root<const B: usize>(node: &Node<u64, B>, is_root: bool) -> usize {
    let mut least = if is_root { usize::MAX } else { node.keys().len() };
    for i in 0..node.slot_count() {
        if let Some(child) = node.child(i) {
            least = least.min(least_keys_below_root(child, false));
        }
    }
    least
}

#[test]
fn insertions_alone_keep_every_node_below_the_root_half_full() {
    let mut state = 21;
    let mut root: Node<u64, 4> = Node::new();
    let mut wide: Node<u64, 64> = Node::new();
    for _ in 0..4000 {
        let value = next_random(&mut state) % 100_000;
        put(&mut root, value);
        put(&mut wide, value);
        assert!(least_keys_below_root(&root, true) >= 2);
        assert!(least_keys_below_root(&wide, true) >= 32);
    }
    check_tree(&root);
    check_tree(&wide);
    assert!(root.depth() > 3);
    assert!(wide.depth() > 1);
    // A removal from a node that is just half full leaves it one key short.
    let victim = root.child(0).unwrap();
    let mut leaf = victim;
    while let Some(next) = leaf.child(0) {
        leaf = next;
    }
    let first = leaf.keys()[0];
    let before = leaf.keys().len();
    assert_eq!(take(&mut root, &first), Some(first));
    check_tree(&root);
    if before == 2 {
        assert!(least_keys_below_root(&root, true) >= 1);
    }
}

#[test]
fn a_node_splits_just_when_no_node_on_the_way_down_has_room() {
    let mut root: Node<u64, 4> = Node::new();
    for v in [10, 20, 30, 40] {
        assert!(matches!(root.insert(v), Insert::Added));
    }
    // The leaf is full: an element that it holds is replaced, a new one
    // splits it.
    assert!(matches!(root.insert(20), Insert::Replaced(20)));
    match root.insert(25) {
        Insert::Split(left, median, right) => {
            assert_eq!(left.keys(), &[10, 20]);
            assert_eq!(median, 25);
            assert_eq!(right.keys(), &[30, 40]);
            assert_eq!(root.len(), 0);
            assert_eq!(root.keys().len(), 0);
            root = Node::from_split(left, median, right);
        }
        _ => panic!("the full leaf must split"),
    }
    // The root has room now, so a split below it is taken in.
    assert!(matches!(root.insert(11), Insert::Added));
    assert!(matches!(root.insert(12), Insert::Added));
    assert_eq!(root.child(0).unwrap().keys(), &[10, 11, 12, 20]);
    assert!(matches!(root.insert(13), Insert::Added));
    assert_eq!(root.keys(), &[12, 25]);
    assert_eq!(root.child(0).unwrap().keys(), &[10, 11]);
    assert_eq!(root.child(1).unwrap().keys(), &[13, 20]);
    assert_eq!(root.child(2).unwrap().keys(), &[30, 40]);
    assert_eq!(root.len(), 8);
    check_tree(&root);
}

#[test]
fn split_puts_the_new_key_in_the_left_half_the_right_half_or_the_middle() {
    for (new, left, median, right) in [
        (5u64, [5u64, 10], 20u64, [30u64, 40]),
        (15, [10, 15], 20, [30, 40]),
        (25, [10, 20], 25, [30, 40]),
        (35, [10, 20], 30, [35, 40]),
        (45, [10, 20], 30, [40, 45]),
    ] {
        let mut node: Node<u64, 4> = Node::new();
        for v in [10, 20, 30, 40] {
            put(&mut node, v);
        }
        match node.insert(new) {
            Insert::Split(l, m, r) => {
                assert_eq!(l.keys(), &left);
                assert_eq!(m, median);
                assert_eq!(r.keys(), &right);
                assert_eq!(l.len(), 2);
                assert_eq!(r.len(), 2);
            }
            _ => panic!("the full leaf must split"),
        }
    }
}

#[test]
fn the_root_gives_way_only_when_both_children_are_too_small() {
    let mut root: Node<u64, 4> = Node::new();
    for v in 1..=5 {
        put(&mut root, v);
    }
    // Children [1, 2] and [4, 5] around 3: both can give a key up.
    assert!(matches!(root.remove(&3), Remove::Removed(3)));
    assert_eq!(root.keys(), &[2]);
    assert_eq!(root.child(0).unwrap().keys(), &[1]);
    assert_eq!(root.child(1).unwrap().keys(), &[4, 5]);
    // The left child is too small and the right one is not: a steal.
    assert!(matches!(root.remove(&1), Remove::Removed(1)));
    assert_eq!(root.keys(), &[4]);
    assert_eq!(root.child(0).unwrap().keys(), &[2]);
    assert_eq!(root.child(1).unwrap().keys(), &[5]);
    // Both are too small: an absent key changes nothing, a key that is
    // there makes the root give way.
    assert!(matches!(root.remove(&3), Remove::NoChange));
    assert_eq!(root.keys(), &[4]);
    match root.remove(&4) {
        Remove::Update(old, merged) => {
            assert_eq!(old, 4);
            assert_eq!(merged.keys(), &[2, 5]);
            assert_eq!(merged.depth(), 1);
            assert_eq!(root.len(), 0);
        }
        _ => panic!("the root must give way"),
    }
}

#[test]
fn invariants_hold_for_many_orders_of_operations() {
    for seed in 100..140 {
        churn::<4>(seed, 1500, 40 + seed % 7 * 50);
    }
    for seed in 200..210 {
        churn::<8>(seed, 2000, 900);
    }
}

#[test]
fn removing_every_key_in_every_position_from_a_tall_tree() {
    // Take each key in turn out of a fresh copy of the same tall tree, so
    // that keys of the root, of inner nodes and of leaves all go first once.
    let mut root: Node<u64, 4> = Node::new();
    for v in 0..300 {
        put(&mut root, (v * 7) % 300);
    }
    check_tree(&root);
    assert!(root.depth() >= 4);
    let all = forward(&root);
    for key in 0..300u64 {
        let mut copy = root.clone();
        assert_eq!(take(&mut copy, &key), Some(key));
        check_tree(&copy);
        let expect: Vec<u64> = all.iter().copied().filter(|v| *v != key).collect();
        assert_eq!(forward(&copy), expect);
        // A second key from the same neighbourhood.
        let next = (key + 1) % 300;
        assert_eq!(take(&mut copy, &next), Some(next));
        check_tree(&copy);
    }
    assert_eq!(forward(&root), all);
    check_tree(&root);
}
