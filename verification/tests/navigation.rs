use ego_tree::NodeId;
use ego_tree::Tree;
use std::hash::Hash;
use std::hash::Hasher;

fn find(tree: &Tree<u32>, value: u32) -> NodeId {
    tree.root()
        .descendants()
        .iter()
        .find(|n| *n.value() == value)
        .map(|n| n.id)
        .unwrap()
}

// 0 => { 1 => { 11, 12 }, 2, 3 => { 31 } }
fn numbers() -> Tree<u32> {
    let mut tree = Tree::new(0);
    {
        let mut root = tree.root_mut();
        {
            let mut one = root.append(1);
            one.append(11);
            one.append(12);
        }
        root.append(2);
        root.append(3).append(31);
    }
    tree
}

#[test]
fn get_checks_the_handle() {
    let big = numbers();
    let small = Tree::new(0u32);
    let far = find(&big, 31);
    assert!(big.get(far).is_some());
    assert!(small.get(far).is_none());
    assert!(small.get(small.root().id).is_some());
    assert!(small.get(big.root().id).is_some());
}

#[test]
fn get_mut_checks_the_handle() {
    let big = numbers();
    let mut small = Tree::new(0u32);
    let far = find(&big, 31);
    assert!(small.get_mut(far).is_none());
    let root = small.root().id;
    assert!(small.get_mut(root).is_some());
    let mut other = numbers();
    let node = other.get_mut(far).unwrap();
    assert!(node.id == far);
}

#[test]
fn unchecked_lookups_find_existing_nodes() {
    let mut tree = numbers();
    let two = find(&tree, 2);
    assert_eq!(*tree.get_unchecked(two).value(), 2);
    *tree.get_unchecked_mut(two).value() = 20;
    assert_eq!(*tree.get(two).unwrap().value(), 20);
    assert!(tree.get_unchecked(two).id == two);
}

#[test]
fn index_of_child_finds_position() {
    let tree = numbers();
    let root = tree.root();
    let one = tree.get(find(&tree, 1)).unwrap();
    let two = tree.get(find(&tree, 2)).unwrap();
    let three = tree.get(find(&tree, 3)).unwrap();
    let twelve = tree.get(find(&tree, 12)).unwrap();
    assert_eq!(root.index_of_child(&one), Some(0));
    assert_eq!(root.index_of_child(&two), Some(1));
    assert_eq!(root.index_of_child(&three), Some(2));
    assert_eq!(root.index_of_child(&twelve), None);
    assert_eq!(root.index_of_child(&root), None);
    assert_eq!(one.index_of_child(&twelve), Some(1));
    assert_eq!(two.index_of_child(&one), None);
}

#[test]
fn index_of_child_ignores_nodes_of_other_trees() {
    let tree = numbers();
    let copy = tree.clone();
    let two = find(&tree, 2);
    let here = tree.get(two).unwrap();
    let there = copy.get(two).unwrap();
    assert_eq!(tree.root().index_of_child(&here), Some(1));
    assert_eq!(tree.root().index_of_child(&there), None);
    assert_eq!(copy.root().index_of_child(&there), Some(1));
}

#[test]
fn index_of_child_id_takes_the_answer_on_identity() {
    let tree = numbers();
    let three = find(&tree, 3);
    let twelve = find(&tree, 12);
    assert_eq!(tree.root().index_of_child_id(three, true), Some(2));
    assert_eq!(tree.root().index_of_child_id(three, false), None);
    assert_eq!(tree.root().index_of_child_id(twelve, true), None);
}

#[test]
fn references_compare_by_identity() {
    let tree = numbers();
    let copy = tree.clone();
    let two = find(&tree, 2);
    let a = tree.get(two).unwrap();
    let b = tree.root().first_child().unwrap().next_sibling().unwrap();
    let c = a;
    assert!(a == b);
    assert!(a == c);
    assert!(a != tree.root());
    assert!(a != copy.get(two).unwrap());
    assert!(tree == copy);
}

#[test]
fn has_siblings_and_has_children() {
    let tree = numbers();
    let root = tree.root();
    assert!(root.has_children());
    assert!(!root.has_siblings());
    let first = root.first_child().unwrap();
    let last = root.last_child().unwrap();
    assert!(first.has_siblings() && first.has_children());
    assert!(last.has_siblings() && last.has_children());
    let only = last.first_child().unwrap();
    assert!(!only.has_siblings() && !only.has_children());
    let middle = first.next_sibling().unwrap();
    assert!(middle.has_siblings() && !middle.has_children());
}

#[test]
fn trees_compare_by_their_nodes() {
    let a = numbers();
    let b = numbers();
    assert!(a == b);
    let mut c = numbers();
    c.orphan(99);
    assert!(a != c);
    let mut d = numbers();
    let three = find(&d, 3);
    d.get_mut(three).unwrap().detach();
    assert!(a != d);
    d.root_mut().append_id(three);
    assert!(a == d);
}

#[test]
fn debug_shows_the_arena() {
    let tree = Tree::new(1u8);
    let text = format!("{:?}", tree);
    assert_eq!(
        text,
        "Tree { vec: [Node { parent: None, prev_sibling: None, next_sibling: None, children: None, value: 1 }] }"
    );
}

#[test]
fn handles_are_ordered_by_creation() {
    let tree = numbers();
    let root = tree.root().id;
    let one = find(&tree, 1);
    let eleven = find(&tree, 11);
    let two = find(&tree, 2);
    assert!(root < one);
    assert!(one < eleven);
    assert!(eleven < two);
    assert!(root <= root && root >= root);
    let mut sorted = vec![two, root, eleven, one];
    sorted.sort();
    assert_eq!(sorted, vec![root, one, eleven, two]);
}

#[test]
fn handles_are_hashable() {
    let tree = numbers();
    let mut seen = std::collections::HashSet::new();
    for node in tree.root().descendants() {
        assert!(seen.insert(node.id));
    }
    assert_eq!(seen.len(), 7);
    assert!(seen.contains(&tree.root().id));
    assert!(!seen.insert(find(&tree, 31)));
}

#[test]
fn equal_trees_hash_alike() {
    let a = numbers();
    let b = numbers();
    let mut ha = std::collections::hash_map::DefaultHasher::new();
    let mut hb = std::collections::hash_map::DefaultHasher::new();
    a.hash(&mut ha);
    b.hash(&mut hb);
    assert_eq!(ha.finish(), hb.finish());
}
