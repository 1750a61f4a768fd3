use ego_tree::NodeId;
use ego_tree::NodeRef;
use ego_tree::Tree;

// root => { b, c => { d, e } }
fn sample() -> Tree<char> {
    let mut tree = Tree::new('a');
    {
        let mut root = tree.root_mut();
        root.append('b');
        let mut c = root.append('c');
        c.append('d');
        c.append('e');
    }
    tree
}

fn child_values(node: &NodeRef<char>) -> Vec<char> {
    node.children().iter().map(|n| *n.value()).collect()
}

fn id_of(tree: &Tree<char>, value: char) -> NodeId {
    tree.root()
        .descendants()
        .iter()
        .find(|n| *n.value() == value)
        .map(|n| n.id)
        .unwrap()
}

#[test]
fn new_tree_has_lone_root() {
    let tree = Tree::new('a');
    let root = tree.root();
    assert_eq!(*root.value(), 'a');
    assert!(root.parent().is_none());
    assert!(root.prev_sibling().is_none());
    assert!(root.next_sibling().is_none());
    assert!(root.first_child().is_none());
    assert!(root.last_child().is_none());
    assert!(!root.has_children());
    assert!(!root.has_siblings());
}

#[test]
fn with_capacity_builds_the_same_tree() {
    let plain = Tree::new(7u32);
    let roomy = Tree::with_capacity(7u32, 64);
    assert!(plain == roomy);
    assert_eq!(*roomy.root().value(), 7);
    assert!(roomy.root().first_child().is_none());
}

#[test]
fn build_and_navigate() {
    let tree = sample();
    let root = tree.root();
    let b = root.first_child().unwrap();
    let c = root.last_child().unwrap();
    assert_eq!(*b.value(), 'b');
    assert_eq!(*c.value(), 'c');
    let d = c.first_child().unwrap();
    assert_eq!(*d.value(), 'd');
    let e = d.next_sibling().unwrap();
    assert_eq!(*e.value(), 'e');
    assert!(e.next_sibling().is_none());
    assert_eq!(*c.last_child().unwrap().value(), 'e');
    assert_eq!(*e.prev_sibling().unwrap().value(), 'd');
    assert_eq!(*d.parent().unwrap().value(), 'c');
    assert_eq!(*c.parent().unwrap().value(), 'a');
}

#[test]
fn detach_keeps_subtree() {
    let mut tree = sample();
    let c_id = id_of(&tree, 'c');
    tree.get_mut(c_id).unwrap().detach();
    let root = tree.root();
    assert_eq!(*root.first_child().unwrap().value(), 'b');
    assert_eq!(*root.last_child().unwrap().value(), 'b');
    let b = root.first_child().unwrap();
    assert!(b.next_sibling().is_none());
    assert!(b.prev_sibling().is_none());
    let c = tree.get(c_id).unwrap();
    assert!(c.parent().is_none());
    assert!(c.prev_sibling().is_none());
    assert!(c.next_sibling().is_none());
    assert_eq!(*c.first_child().unwrap().value(), 'd');
    assert_eq!(child_values(&c), vec!['d', 'e']);
}

#[test]
fn insert_between_two_children() {
    let mut tree = Tree::new('r');
    {
        let mut root = tree.root_mut();
        root.append('x');
        root.append('y');
        let v = root.insert('v', 1).id;
        assert!(root.tree.get(v).unwrap().parent().unwrap().id == root.id);
    }
    assert_eq!(child_values(&tree.root()), vec!['x', 'v', 'y']);
    let v = tree.root().first_child().unwrap().next_sibling().unwrap();
    assert_eq!(*v.value(), 'v');
    assert_eq!(*v.prev_sibling().unwrap().value(), 'x');
    assert_eq!(*v.next_sibling().unwrap().value(), 'y');
    assert_eq!(*v.parent().unwrap().value(), 'r');
}

#[test]
fn insert_at_front_and_at_end() {
    let mut tree = Tree::new('r');
    {
        let mut root = tree.root_mut();
        root.append('x');
        root.append('y');
        root.insert('f', 0);
        root.insert('l', 3);
    }
    assert_eq!(child_values(&tree.root()), vec!['f', 'x', 'y', 'l']);
    assert_eq!(*tree.root().first_child().unwrap().value(), 'f');
    assert_eq!(*tree.root().last_child().unwrap().value(), 'l');
}

#[test]
fn insert_into_childless_node() {
    let mut tree = Tree::new('r');
    tree.root_mut().insert('o', 0);
    assert_eq!(tree.root().children().len(), 1);
    let only = tree.root().first_child().unwrap();
    assert!(only == tree.root().last_child().unwrap());
    assert!(!only.has_siblings());
}
