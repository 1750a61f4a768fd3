use ego_tree::NodeId;
use ego_tree::NodeRef;
use ego_tree::Tree;

fn values(nodes: Vec<NodeRef<&'static str>>) -> Vec<&'static str> {
    nodes.iter().map(|n| *n.value()).collect()
}

fn kids(tree: &Tree<&'static str>, id: NodeId) -> Vec<&'static str> {
    values(tree.get(id).unwrap().children())
}

fn find(tree: &Tree<&'static str>, value: &str) -> NodeId {
    tree.root()
        .descendants()
        .iter()
        .find(|n| *n.value() == value)
        .map(|n| n.id)
        .unwrap()
}

// root => { a => { a1, a2, a3 }, b => { b1, b2 }, c }
fn family() -> Tree<&'static str> {
    let mut tree = Tree::new("root");
    {
        let mut root = tree.root_mut();
        {
            let mut a = root.append("a");
            a.append("a1");
            a.append("a2");
            a.append("a3");
        }
        {
            let mut b = root.append("b");
            b.append("b1");
            b.append("b2");
        }
        root.append("c");
    }
    tree
}

fn assert_consistent(tree: &Tree<&'static str>, top: NodeId) {
    for node in tree.get(top).unwrap().descendants() {
        let children = node.children();
        match (node.first_child(), node.last_child()) {
            (Some(first), Some(last)) => {
                assert!(first == children[0]);
                assert!(last == children[children.len() - 1]);
                assert!(first.prev_sibling().is_none());
                assert!(last.next_sibling().is_none());
            }
            (None, None) => assert!(children.is_empty()),
            _ => panic!("one end of the child list is missing"),
        }
        for (i, child) in children.iter().enumerate() {
            assert!(child.parent().unwrap() == node);
            if i + 1 < children.len() {
                assert!(child.next_sibling().unwrap() == children[i + 1]);
                assert!(children[i + 1].prev_sibling().unwrap() == *child);
            }
        }
    }
}

#[test]
fn root_never_gets_parent_or_siblings() {
    let mut tree = family();
    tree.root_mut().detach();
    let a = find(&tree, "a");
    let c = find(&tree, "c");
    tree.get_mut(a).unwrap().detach();
    tree.get_mut(c).unwrap().append_id(a);
    tree.root_mut().prepend("first");
    tree.root_mut().reparent_from_id_append(c);
    let root = tree.root();
    assert!(root.parent().is_none());
    assert!(root.prev_sibling().is_none());
    assert!(root.next_sibling().is_none());
    assert_eq!(*root.value(), "root");
    assert_consistent(&tree, root.id);
}

#[test]
fn sibling_links_are_symmetric() {
    let mut tree = family();
    let b = find(&tree, "b");
    tree.get_mut(b).unwrap().insert_before("n1");
    tree.get_mut(b).unwrap().insert_after("n2");
    for node in tree.root().descendants() {
        if let Some(next) = node.next_sibling() {
            assert!(next.prev_sibling().unwrap() == node);
            assert!(next.parent() == node.parent());
        }
        if let Some(prev) = node.prev_sibling() {
            assert!(prev.next_sibling().unwrap() == node);
        }
    }
    assert_eq!(kids(&tree, tree.root().id), vec!["a", "n1", "b", "n2", "c"]);
}

#[test]
fn children_run_from_first_to_last() {
    let tree = family();
    assert_consistent(&tree, tree.root().id);
    let a = tree.root().first_child().unwrap();
    let list = a.children();
    assert_eq!(list.len(), 3);
    assert!(list[0] == a.first_child().unwrap());
    assert!(list[2] == a.last_child().unwrap());
    for child in list {
        assert!(child.parent().unwrap() == a);
    }
}

#[test]
fn detaching_an_orphan_or_the_root_changes_nothing() {
    let mut tree = family();
    let before = tree.clone();
    tree.root_mut().detach();
    assert!(tree == before);

    let b = find(&tree, "b");
    tree.get_mut(b).unwrap().detach();
    let once = tree.clone();
    tree.get_mut(b).unwrap().detach();
    assert!(tree == once);
    assert_eq!(kids(&tree, tree.root().id), vec!["a", "c"]);
    assert_eq!(kids(&tree, b), vec!["b1", "b2"]);
}

#[test]
fn detach_first_middle_last_and_only() {
    let mut tree = family();
    let a = find(&tree, "a");
    let a1 = find(&tree, "a1");
    let a2 = find(&tree, "a2");
    let a3 = find(&tree, "a3");

    tree.get_mut(a2).unwrap().detach();
    assert_eq!(kids(&tree, a), vec!["a1", "a3"]);
    assert_consistent(&tree, a);

    tree.get_mut(a1).unwrap().detach();
    assert_eq!(kids(&tree, a), vec!["a3"]);
    assert_consistent(&tree, a);
    tree.get_mut(a).unwrap().prepend_id(a1);
    tree.get_mut(a3).unwrap().detach();
    assert_eq!(kids(&tree, a), vec!["a1"]);

    tree.get_mut(a1).unwrap().detach();
    assert!(kids(&tree, a).is_empty());
    assert!(!tree.get(a).unwrap().has_children());
    assert!(tree.get(a).unwrap().first_child().is_none());
    assert!(tree.get(a).unwrap().last_child().is_none());
    for id in [a1, a2, a3] {
        let n = tree.get(id).unwrap();
        assert!(n.parent().is_none() && n.prev_sibling().is_none() && n.next_sibling().is_none());
    }
}

#[test]
fn append_then_detach_restores_the_child_list() {
    let mut tree = family();
    let mut expected = tree.clone();
    expected.orphan("new");

    let a = find(&tree, "a");
    let new = tree.get_mut(a).unwrap().append("new").id;
    assert_eq!(kids(&tree, a), vec!["a1", "a2", "a3", "new"]);
    tree.get_mut(new).unwrap().detach();

    assert!(tree == expected);
    assert_eq!(kids(&tree, a), vec!["a1", "a2", "a3"]);
    assert_eq!(*tree.get(a).unwrap().last_child().unwrap().value(), "a3");
    assert!(tree.get(a).unwrap().last_child().unwrap().next_sibling().is_none());
    assert!(tree.get(new).unwrap().parent().is_none());
}

#[test]
fn appended_children_keep_call_order() {
    let mut tree = Tree::new("root");
    let names = ["one", "two", "three", "four", "five"];
    for name in names {
        tree.root_mut().append(name);
    }
    assert_eq!(kids(&tree, tree.root().id), names.to_vec());
}

#[test]
fn prepended_children_come_in_reverse_call_order() {
    let mut tree = Tree::new("root");
    let names = ["one", "two", "three", "four", "five"];
    for name in names {
        tree.root_mut().prepend(name);
    }
    assert_eq!(kids(&tree, tree.root().id), vec!["five", "four", "three", "two", "one"]);
}

#[test]
fn reparent_append_splices_all_children() {
    let mut tree = family();
    let a = find(&tree, "a");
    let b = find(&tree, "b");
    tree.get_mut(b).unwrap().reparent_from_id_append(a);
    assert_eq!(kids(&tree, b), vec!["b1", "b2", "a1", "a2", "a3"]);
    assert!(kids(&tree, a).is_empty());
    assert!(!tree.get(a).unwrap().has_children());
    for child in tree.get(b).unwrap().children() {
        assert!(child.parent().unwrap().id == b);
    }
    assert_consistent(&tree, tree.root().id);
    let a2 = find(&tree, "a2");
    tree.get_mut(a2).unwrap().detach();
    assert_eq!(kids(&tree, b), vec!["b1", "b2", "a1", "a3"]);
}

#[test]
fn reparent_prepend_splices_all_children() {
    let mut tree = family();
    let a = find(&tree, "a");
    let b = find(&tree, "b");
    tree.get_mut(b).unwrap().reparent_from_id_prepend(a);
    assert_eq!(kids(&tree, b), vec!["a1", "a2", "a3", "b1", "b2"]);
    assert!(kids(&tree, a).is_empty());
    for child in tree.get(b).unwrap().children() {
        assert!(child.parent().unwrap().id == b);
    }
    assert_consistent(&tree, tree.root().id);
}

#[test]
fn reparent_into_childless_node() {
    let mut tree = family();
    let a = find(&tree, "a");
    let c = find(&tree, "c");
    tree.get_mut(c).unwrap().reparent_from_id_append(a);
    assert_eq!(kids(&tree, c), vec!["a1", "a2", "a3"]);
    assert!(kids(&tree, a).is_empty());
    let b = find(&tree, "b");
    tree.get_mut(a).unwrap().reparent_from_id_prepend(b);
    assert_eq!(kids(&tree, a), vec!["b1", "b2"]);
    assert_consistent(&tree, tree.root().id);
}

#[test]
fn reparent_from_childless_node_or_from_itself_changes_nothing() {
    let mut tree = family();
    let before = tree.clone();
    let a = find(&tree, "a");
    let c = find(&tree, "c");
    tree.get_mut(a).unwrap().reparent_from_id_append(c);
    assert!(tree == before);
    tree.get_mut(a).unwrap().reparent_from_id_prepend(c);
    assert!(tree == before);
    tree.get_mut(a).unwrap().reparent_from_id_append(a);
    assert!(tree == before);
    tree.get_mut(a).unwrap().reparent_from_id_prepend(a);
    assert!(tree == before);
}

#[test]
fn append_id_moves_a_subtree() {
    let mut tree = family();
    let a = find(&tree, "a");
    let c = find(&tree, "c");
    let moved = tree.get_mut(c).unwrap().append_id(a).id;
    assert!(moved == a);
    assert_eq!(kids(&tree, tree.root().id), vec!["b", "c"]);
    assert_eq!(kids(&tree, c), vec!["a"]);
    assert_eq!(kids(&tree, a), vec!["a1", "a2", "a3"]);
    assert!(tree.get(a).unwrap().parent().unwrap().id == c);
    assert_consistent(&tree, tree.root().id);
}

#[test]
fn append_id_of_the_last_child_keeps_it_last() {
    let mut tree = family();
    let root = tree.root().id;
    let c = find(&tree, "c");
    tree.root_mut().append_id(c);
    assert_eq!(kids(&tree, root), vec!["a", "b", "c"]);
    assert_consistent(&tree, root);
    let a = find(&tree, "a");
    tree.root_mut().append_id(a);
    assert_eq!(kids(&tree, root), vec!["b", "c", "a"]);
    assert_consistent(&tree, root);
}

#[test]
fn prepend_id_moves_a_node_to_the_front() {
    let mut tree = family();
    let root = tree.root().id;
    let c = find(&tree, "c");
    tree.root_mut().prepend_id(c);
    assert_eq!(kids(&tree, root), vec!["c", "a", "b"]);
    tree.root_mut().prepend_id(c);
    assert_eq!(kids(&tree, root), vec!["c", "a", "b"]);
    let orphan = tree.orphan("o").id;
    tree.root_mut().prepend_id(orphan);
    assert_eq!(kids(&tree, root), vec!["o", "c", "a", "b"]);
    assert_consistent(&tree, root);
}

#[test]
fn insert_id_before_and_after_detach_the_sibling_first() {
    let mut tree = family();
    let root = tree.root().id;
    let a = find(&tree, "a");
    let b = find(&tree, "b");
    let c = find(&tree, "c");
    let b1 = find(&tree, "b1");

    tree.get_mut(a).unwrap().insert_id_before(c);
    assert_eq!(kids(&tree, root), vec!["c", "a", "b"]);
    assert_consistent(&tree, root);

    tree.get_mut(b).unwrap().insert_id_after(c);
    assert_eq!(kids(&tree, root), vec!["a", "b", "c"]);
    assert_consistent(&tree, root);

    let moved = tree.get_mut(b).unwrap().insert_id_before(b1).id;
    assert!(moved == b1);
    assert_eq!(kids(&tree, root), vec!["a", "b1", "b", "c"]);
    assert_eq!(kids(&tree, b), vec!["b2"]);
    assert!(tree.get(b1).unwrap().parent().unwrap().id == root);
    assert_consistent(&tree, root);

    tree.get_mut(a).unwrap().insert_id_after(b1);
    assert_eq!(kids(&tree, root), vec!["a", "b1", "b", "c"]);
}

#[test]
fn insert_before_and_after_create_siblings() {
    let mut tree = family();
    let a = find(&tree, "a");
    let a1 = find(&tree, "a1");
    let a3 = find(&tree, "a3");
    let first = tree.get_mut(a1).unwrap().insert_before("a0").id;
    let last = tree.get_mut(a3).unwrap().insert_after("a4").id;
    tree.get_mut(a1).unwrap().insert_after("a1b");
    assert_eq!(kids(&tree, a), vec!["a0", "a1", "a1b", "a2", "a3", "a4"]);
    assert!(tree.get(a).unwrap().first_child().unwrap().id == first);
    assert!(tree.get(a).unwrap().last_child().unwrap().id == last);
    assert_consistent(&tree, a);
}

#[test]
fn insert_id_places_an_existing_node() {
    let mut tree = family();
    let a = find(&tree, "a");
    let c = find(&tree, "c");
    let b2 = find(&tree, "b2");
    tree.get_mut(a).unwrap().insert_id(c, 2);
    assert_eq!(kids(&tree, a), vec!["a1", "a2", "c", "a3"]);
    tree.get_mut(a).unwrap().insert_id(b2, 0);
    assert_eq!(kids(&tree, a), vec!["b2", "a1", "a2", "c", "a3"]);
    tree.get_mut(a).unwrap().insert_id(b2, 5);
    assert_eq!(kids(&tree, a), vec!["a1", "a2", "c", "a3", "b2"]);
    // a child moved to an index behind its own place lands one before it
    let a1 = find(&tree, "a1");
    tree.get_mut(a).unwrap().insert_id(a1, 3);
    assert_eq!(kids(&tree, a), vec!["a2", "c", "a1", "a3", "b2"]);
    assert_consistent(&tree, tree.root().id);
}

#[test]
fn orphan_is_unattached_until_linked() {
    let mut tree = Tree::new("root");
    let id = {
        let mut orphan = tree.orphan("lost");
        orphan.append("kept");
        orphan.id
    };
    assert!(tree.root().first_child().is_none());
    let lost = tree.get(id).unwrap();
    assert_eq!(*lost.value(), "lost");
    assert!(lost.parent().is_none());
    assert!(lost.prev_sibling().is_none());
    assert!(lost.next_sibling().is_none());
    assert_eq!(kids(&tree, id), vec!["kept"]);
    tree.root_mut().append_id(id);
    assert_eq!(kids(&tree, tree.root().id), vec!["lost"]);
    assert!(tree.get(id).unwrap().parent().unwrap() == tree.root());
}

#[test]
fn value_can_be_changed_in_place() {
    let mut tree = family();
    let before = tree.clone();
    let b = find(&tree, "b");
    {
        let mut node = tree.get_mut(b).unwrap();
        assert_eq!(*node.value(), "b");
        *node.value() = "B";
    }
    assert_eq!(*tree.get(b).unwrap().value(), "B");
    assert_eq!(kids(&tree, tree.root().id), vec!["a", "B", "c"]);
    assert_eq!(kids(&tree, b), vec!["b1", "b2"]);
    assert!(tree != before);
    *tree.get_mut(b).unwrap().value() = "b";
    assert!(tree == before);
}

#[test]
fn mutators_navigate_like_references() {
    let mut tree = family();
    let b = find(&tree, "b");
    let mut node = tree.get_mut(b).unwrap();
    assert!(node.has_children());
    assert!(node.has_siblings());
    assert_eq!(*node.parent().unwrap().value(), "root");
    assert_eq!(*node.prev_sibling().unwrap().value(), "a");
    assert_eq!(*node.next_sibling().unwrap().value(), "c");
    assert_eq!(*node.first_child().unwrap().value(), "b1");
    assert_eq!(*node.last_child().unwrap().value(), "b2");
    let mut c = node.next_sibling().unwrap();
    assert!(!c.has_children());
    assert!(c.next_sibling().is_none());
    assert!(c.first_child().is_none());
    assert!(c.last_child().is_none());
    let mut root = tree.root_mut();
    assert!(root.parent().is_none());
    assert!(root.prev_sibling().is_none());
    assert!(!root.has_siblings());
}

#[test]
fn building_through_chained_mutators() {
    let mut tree = Tree::new("root");
    tree.root_mut().append("x").append("y").append("z");
    let x = tree.root().first_child().unwrap();
    let y = x.first_child().unwrap();
    let z = y.first_child().unwrap();
    assert_eq!((*x.value(), *y.value(), *z.value()), ("x", "y", "z"));
    assert!(z.first_child().is_none());
    let mut m = tree.root_mut();
    let mut first = m.first_child().unwrap();
    first.prepend("w");
    assert_eq!(kids(&tree, tree.root().first_child().unwrap().id), vec!["w", "y"]);
}

#[test]
fn mutator_turns_into_reference() {
    let mut tree = family();
    let b = find(&tree, "b");
    let node: NodeRef<&'static str> = NodeRef::from(tree.get_mut(b).unwrap());
    assert!(node.id == b);
    assert_eq!(*node.value(), "b");
    assert_eq!(values(node.children()), vec!["b1", "b2"]);
}
