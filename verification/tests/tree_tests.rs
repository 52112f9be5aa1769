use rbtree::tree::RedBlackTree;
use rbtree::Color;
use std::collections::BTreeMap;

/// Rebuilds the shape of a search tree with distinct keys from its pre-order
/// listing and checks the red-black properties: no red node has a red child,
/// and every path down meets the same number of black nodes. Returns the
/// black height.
fn rb_black_height(list: &[(i32, Color)], parent_red: bool) -> usize {
    if list.is_empty() {
        return 0;
    }
    let (key, color) = list[0];
    let red = color == Color::Red;
    assert!(!(red && parent_red), "red node with a red child");
    let rest = &list[1..];
    let split = rest.iter().position(|(k, _)| *k > key).unwrap_or(rest.len());
    let lh = rb_black_height(&rest[..split], red);
    let rh = rb_black_height(&rest[split..], red);
    assert_eq!(lh, rh, "unequal black heights");
    lh + if red { 0 } else { 1 }
}

fn check_red_black(t: &RedBlackTree<i32, i32>) -> usize {
    let list: Vec<(i32, Color)> = t.preorder().into_iter().map(|(k, _, c)| (*k, c)).collect();
    if let Some((_, c)) = list.first() {
        assert_eq!(*c, Color::Black, "red root");
    }
    rb_black_height(&list, false)
}

fn keys_of(t: &RedBlackTree<i32, i32>) -> Vec<i32> {
    let mut copy = t.clone();
    let mut out = Vec::new();
    while let Some((k, _)) = copy.pop_first() {
        out.push(k);
    }
    out
}

#[test]
fn new_tree_is_empty() {
    let t: RedBlackTree<i32, i32> = RedBlackTree::new();
    assert!(t.is_empty());
    assert_eq!(t.len(), 0);
    assert_eq!(t.get_first(), None);
    assert_eq!(t.get_last(), None);
    assert!(t.preorder().is_empty());
}

#[test]
fn main_scenario() {
    let mut a = RedBlackTree::new();
    assert!(a.is_empty());
    assert_eq!(a.check_and_insert(1, 15), None);
    assert_eq!(a.check_and_insert(2, 17), None);
    assert_eq!(a.check_and_insert(3, 32), None);
    assert_eq!(a.check_and_insert(4, 22), None);
    assert_eq!(a.check_and_insert(2, 15), Some(17));
    assert_eq!(a.check_and_insert(2, 40), Some(15));
    assert_eq!(a.del_node(&2), Some(40));
    assert_eq!(a.del_node(&2), None);
    assert!(!a.is_empty());
    assert_eq!(a.len(), 3);
    assert_eq!(a.get(&1), Some(&15));
    assert_eq!(a.get(&3), Some(&32));
    assert_eq!(a.get(&4), Some(&22));
    assert_eq!(a.get(&2), None);
}

#[test]
fn main_scenario_preorder() {
    let mut a = RedBlackTree::new();
    a.check_and_insert(1, 15);
    a.check_and_insert(2, 17);
    a.check_and_insert(3, 32);
    a.check_and_insert(4, 22);
    a.check_and_insert(2, 15);
    a.check_and_insert(2, 40);
    a.del_node(&2);
    a.del_node(&2);
    let listing: Vec<(i32, i32, Color)> = a.preorder().into_iter().map(|(k, v, c)| (*k, *v, c)).collect();
    assert_eq!(
        listing,
        vec![(3, 32, Color::Black), (1, 15, Color::Black), (4, 22, Color::Black)]
    );
}

#[test]
fn insert_keeps_duplicates() {
    let mut t = RedBlackTree::new();
    t.insert(5, 1);
    t.insert(5, 2);
    t.insert(5, 3);
    assert_eq!(t.len(), 3);
    assert!(t.contains_key(&5));
    // The entries keep insertion order among equal keys.
    assert_eq!(t.pop_first(), Some((5, 1)));
    assert_eq!(t.pop_first(), Some((5, 2)));
    assert_eq!(t.pop_first(), Some((5, 3)));
    assert_eq!(t.pop_first(), None);
}

#[test]
fn insert_ascending_then_sorted() {
    let mut t = RedBlackTree::new();
    for i in 0..100 {
        t.insert(i, i * 10);
    }
    assert_eq!(t.len(), 100);
    assert_eq!(keys_of(&t), (0..100).collect::<Vec<i32>>());
    for i in 0..100 {
        assert_eq!(t.get(&i), Some(&(i * 10)));
    }
}

#[test]
fn insert_descending_then_sorted() {
    let mut t = RedBlackTree::new();
    for i in (0..100).rev() {
        t.insert(i, -i);
    }
    assert_eq!(keys_of(&t), (0..100).collect::<Vec<i32>>());
    assert_eq!(t.get_first(), Some((&0, &0)));
    assert_eq!(t.get_last(), Some((&99, &-99)));
}

#[test]
fn get_missing_is_none() {
    let mut t = RedBlackTree::new();
    t.insert(10, 1);
    t.insert(20, 2);
    assert_eq!(t.get(&15), None);
    assert!(!t.contains_key(&15));
    assert!(t.contains_key(&20));
}

#[test]
fn get_mut_changes_value() {
    let mut t = RedBlackTree::new();
    t.insert(1, 100);
    t.insert(2, 200);
    if let Some(v) = t.get_mut(&2) {
        *v += 5;
    }
    assert_eq!(t.get(&2), Some(&205));
    assert_eq!(t.get_mut(&3), None);
    assert_eq!(t.len(), 2);
}

#[test]
fn first_and_last_mut() {
    let mut t = RedBlackTree::new();
    for k in [4, 2, 8, 6] {
        t.insert(k, 0);
    }
    if let Some((k, v)) = t.get_first_mut() {
        assert_eq!(*k, 2);
        *v = 7;
    }
    if let Some((k, v)) = t.get_last_mut() {
        assert_eq!(*k, 8);
        *v = 9;
    }
    assert_eq!(t.get(&2), Some(&7));
    assert_eq!(t.get(&8), Some(&9));
    let mut empty: RedBlackTree<i32, i32> = RedBlackTree::new();
    assert!(empty.get_first_mut().is_none());
    assert!(empty.get_last_mut().is_none());
}

#[test]
fn pop_first_and_last() {
    let mut t = RedBlackTree::new();
    for k in [5, 3, 9, 1, 7] {
        t.insert(k, k * 2);
    }
    assert_eq!(t.pop_first(), Some((1, 2)));
    assert_eq!(t.pop_last(), Some((9, 18)));
    assert_eq!(t.len(), 3);
    assert_eq!(keys_of(&t), vec![3, 5, 7]);
    let mut empty: RedBlackTree<i32, i32> = RedBlackTree::new();
    assert_eq!(empty.pop_first(), None);
    assert_eq!(empty.pop_last(), None);
}

#[test]
fn del_node_missing_leaves_tree() {
    let mut t = RedBlackTree::new();
    t.insert(1, 1);
    assert_eq!(t.del_node(&2), None);
    assert_eq!(t.len(), 1);
    assert_eq!(t.del_node(&1), Some(1));
    assert!(t.is_empty());
    assert_eq!(t.del_node(&1), None);
}

#[test]
fn clear_empties() {
    let mut t = RedBlackTree::new();
    for i in 0..20 {
        t.insert(i, i);
    }
    t.clear();
    assert!(t.is_empty());
    assert_eq!(t.len(), 0);
    assert_eq!(t.get(&3), None);
    t.insert(3, 4);
    assert_eq!(t.get(&3), Some(&4));
}

#[test]
fn index_finds_value() {
    let mut t = RedBlackTree::new();
    t.insert(7, 70);
    t.insert(3, 30);
    assert_eq!(*t.index(&7), 70);
    assert_eq!(*t.index(&3), 30);
}

#[test]
fn clone_is_independent() {
    let mut t = RedBlackTree::new();
    for i in 0..10 {
        t.insert(i, i);
    }
    let mut c = t.clone();
    c.del_node(&3);
    c.check_and_insert(4, 40);
    assert_eq!(t.len(), 10);
    assert_eq!(c.len(), 9);
    assert_eq!(t.get(&3), Some(&3));
    assert_eq!(t.get(&4), Some(&4));
    assert_eq!(c.get(&4), Some(&40));
}

#[test]
fn check_and_insert_then_get_gives_value() {
    let mut t = RedBlackTree::new();
    for k in [10, 5, 15] {
        t.check_and_insert(k, 0);
    }
    t.check_and_insert(5, 55);
    assert_eq!(t.get(&5), Some(&55));
    assert_eq!(t.len(), 3);
}

#[test]
fn remove_undoes_insert() {
    let mut t = RedBlackTree::new();
    for k in [8, 4, 12, 2, 6] {
        t.insert(k, k);
    }
    let before = keys_of(&t);
    assert_eq!(t.check_and_insert(5, 50), None);
    assert_eq!(t.del_node(&5), Some(50));
    assert_eq!(keys_of(&t), before);
}

#[test]
fn string_values_and_keys() {
    let mut t: RedBlackTree<String, String> = RedBlackTree::new();
    t.insert("b".to_string(), "bee".to_string());
    t.insert("a".to_string(), "ay".to_string());
    assert_eq!(t.get(&"a".to_string()), Some(&"ay".to_string()));
    assert_eq!(t.pop_last(), Some(("b".to_string(), "bee".to_string())));
}

#[test]
fn random_ops_match_model() {
    let mut t = RedBlackTree::new();
    let mut model: BTreeMap<i32, i32> = BTreeMap::new();
    let mut x: u64 = 12345;
    for step in 0..3000 {
        x = x.wrapping_mul(6364136223846793005).wrapping_add(1442695040888963407);
        let key = ((x >> 33) % 200) as i32;
        let op = (x >> 20) % 3;
        if op < 2 {
            let old = t.check_and_insert(key, step);
            assert_eq!(old, model.insert(key, step));
        } else {
            assert_eq!(t.del_node(&key), model.remove(&key));
        }
        assert_eq!(t.len(), model.len());
        if step % 50 == 0 {
            check_red_black(&t);
        }
    }
    check_red_black(&t);
    for (k, v) in model.iter() {
        assert_eq!(t.get(k), Some(v));
    }
    assert_eq!(keys_of(&t), model.keys().cloned().collect::<Vec<i32>>());
    let first = model.iter().next().map(|(k, v)| (k, v));
    assert_eq!(t.get_first(), first);
}

#[test]
fn stays_balanced_after_many_inserts() {
    let mut t = RedBlackTree::new();
    for i in 0..1023 {
        t.insert(i, i);
    }
    let bh = check_red_black(&t);
    // 1023 entries: black height between 5 and 10.
    assert!(bh >= 5 && bh <= 10);
    for i in (0..1023).step_by(2) {
        assert_eq!(t.del_node(&i), Some(i));
    }
    check_red_black(&t);
    assert_eq!(t.len(), 511);
}

#[test]
fn preorder_of_three() {
    let mut t = RedBlackTree::new();
    t.insert(1, 10);
    t.insert(2, 20);
    t.insert(3, 30);
    let listing: Vec<(i32, i32, Color)> = t.preorder().into_iter().map(|(k, v, c)| (*k, *v, c)).collect();
    assert_eq!(listing, vec![(2, 20, Color::Black), (1, 10, Color::Red), (3, 30, Color::Red)]);
}

#[test]
fn new_node_is_black_leaf() {
    let n = rbtree::node::RBTreeNode::new(1, 2);
    assert_eq!(n.color, Color::Black);
    assert!(n.left.is_none() && n.right.is_none());
    assert_eq!(n.pair(), (1, 2));
}

#[test]
fn inserts_then_pops_sort_stably() {
    let mut t = RedBlackTree::new();
    let mut entries: Vec<(i32, i32)> = Vec::new();
    let mut x: u64 = 987654321;
    for i in 0..500 {
        x = x.wrapping_mul(6364136223846793005).wrapping_add(1442695040888963407);
        let key = ((x >> 33) % 40) as i32;
        t.insert(key, i);
        entries.push((key, i));
    }
    let mut expected = entries.clone();
    expected.sort_by_key(|e| e.0);
    let mut popped = Vec::new();
    while let Some(e) = t.pop_first() {
        popped.push(e);
    }
    assert_eq!(popped, expected);
    assert!(t.is_empty());
    assert_eq!(t.pop_first(), None);
}

#[test]
fn clone_makes_every_node_black() {
    let mut t = RedBlackTree::new();
    for i in 0..30 {
        t.insert(i, i);
    }
    let c = t.clone();
    let a: Vec<(i32, i32)> = t.preorder().into_iter().map(|(k, v, _)| (*k, *v)).collect();
    let b: Vec<(i32, i32)> = c.preorder().into_iter().map(|(k, v, _)| (*k, *v)).collect();
    assert_eq!(a, b);
    assert!(t.preorder().into_iter().any(|(_, _, col)| col == Color::Red));
    assert!(c.preorder().into_iter().all(|(_, _, col)| col == Color::Black));
    assert_eq!(c.len(), 30);
}

#[test]
fn check_and_insert_keeps_keys_distinct() {
    let mut t = RedBlackTree::new();
    for i in 0..200 {
        t.check_and_insert(i % 17, i);
    }
    assert_eq!(t.len(), 17);
    assert_eq!(keys_of(&t), (0..17).collect::<Vec<i32>>());
}

#[test]
fn insert_least_then_pop_first() {
    let mut t = RedBlackTree::new();
    for k in [5, 9, 7] {
        t.insert(k, k);
    }
    t.insert(1, 100);
    assert_eq!(t.pop_first(), Some((1, 100)));
    assert_eq!(keys_of(&t), vec![5, 7, 9]);
}
