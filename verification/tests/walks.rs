use ego_tree::Edge;
use ego_tree::NodeId;
use ego_tree::NodeRef;
use ego_tree::Piece;
use ego_tree::Tree;

fn find(tree: &Tree<char>, value: char) -> NodeId {
    tree.root()
        .descendants()
        .iter()
        .find(|n| *n.value() == value)
        .map(|n| n.id)
        .unwrap()
}

fn values(nodes: Vec<NodeRef<char>>) -> String {
    nodes.iter().map(|n| *n.value()).collect()
}

fn trace(edges: Vec<Edge<char>>) -> String {
    let mut text = String::new();
    for edge in edges {
        match edge {
            Edge::Open(n) => {
                text.push('<');
                text.push(*n.value());
            }
            Edge::Close(n) => {
                text.push(*n.value());
                text.push('>');
            }
        }
    }
    text
}

fn render(tree: &Tree<char>) -> String {
    let mut text = String::new();
    for piece in tree.outline() {
        match piece {
            Piece::Value(n) => text.push_str(&format!("{:?}", n.value())),
            other => text.push_str(other.text()),
        }
    }
    text
}

// a => { b => { d, e => { h } , f }, c => { g } }
fn letters() -> Tree<char> {
    let mut tree = Tree::new('a');
    {
        let mut root = tree.root_mut();
        {
            let mut b = root.append('b');
            b.append('d');
            b.append('e').append('h');
            b.append('f');
        }
        root.append('c').append('g');
    }
    tree
}

#[test]
fn children_in_order() {
    let tree = letters();
    assert_eq!(values(tree.root().children()), "bc");
    let b = tree.get(find(&tree, 'b')).unwrap();
    assert_eq!(values(b.children()), "def");
    let d = tree.get(find(&tree, 'd')).unwrap();
    assert_eq!(values(d.children()), "");
}

#[test]
fn siblings_nearest_first() {
    let tree = letters();
    let d = tree.get(find(&tree, 'd')).unwrap();
    let e = tree.get(find(&tree, 'e')).unwrap();
    let f = tree.get(find(&tree, 'f')).unwrap();
    assert_eq!(values(d.next_siblings()), "ef");
    assert_eq!(values(e.next_siblings()), "f");
    assert_eq!(values(f.next_siblings()), "");
    assert_eq!(values(f.prev_siblings()), "ed");
    assert_eq!(values(e.prev_siblings()), "d");
    assert_eq!(values(d.prev_siblings()), "");
    assert_eq!(values(tree.root().next_siblings()), "");
    assert_eq!(values(tree.root().prev_siblings()), "");
}

#[test]
fn ancestors_up_to_the_root() {
    let tree = letters();
    let h = tree.get(find(&tree, 'h')).unwrap();
    assert_eq!(values(h.ancestors()), "eba");
    let c = tree.get(find(&tree, 'c')).unwrap();
    assert_eq!(values(c.ancestors()), "a");
    assert_eq!(values(tree.root().ancestors()), "");
}

#[test]
fn ancestors_of_a_detached_node_stop_at_the_orphan() {
    let mut tree = letters();
    let b = find(&tree, 'b');
    let h = find(&tree, 'h');
    tree.get_mut(b).unwrap().detach();
    assert_eq!(values(tree.get(h).unwrap().ancestors()), "eb");
    assert_eq!(values(tree.get(b).unwrap().ancestors()), "");
}

#[test]
fn descendants_in_preorder() {
    let tree = letters();
    assert_eq!(values(tree.root().descendants()), "abdehfcg");
    let b = tree.get(find(&tree, 'b')).unwrap();
    assert_eq!(values(b.descendants()), "bdehf");
    let g = tree.get(find(&tree, 'g')).unwrap();
    assert_eq!(values(g.descendants()), "g");
}

#[test]
fn traverse_opens_and_closes_each_node() {
    let tree = letters();
    assert_eq!(
        trace(tree.root().traverse()),
        "<a<b<dd><e<hh>e><ff>b><c<gg>c>a>"
    );
    let e = tree.get(find(&tree, 'e')).unwrap();
    assert_eq!(trace(e.traverse()), "<e<hh>e>");
    let h = tree.get(find(&tree, 'h')).unwrap();
    assert_eq!(trace(h.traverse()), "<hh>");
}

#[test]
fn traverse_of_a_lone_root() {
    let tree = Tree::new('z');
    let edges = tree.root().traverse();
    assert_eq!(edges.len(), 2);
    assert!(matches!(edges[0], Edge::Open(n) if n == tree.root()));
    assert!(matches!(edges[1], Edge::Close(n) if n == tree.root()));
    assert_eq!(values(tree.root().descendants()), "z");
}

#[test]
fn walks_skip_detached_subtrees() {
    let mut tree = letters();
    let e = find(&tree, 'e');
    tree.get_mut(e).unwrap().detach();
    assert_eq!(values(tree.root().descendants()), "abdfcg");
    assert_eq!(trace(tree.root().traverse()), "<a<b<dd><ff>b><c<gg>c>a>");
    assert_eq!(values(tree.get(e).unwrap().descendants()), "eh");
}

#[test]
fn outline_of_a_lone_root() {
    let tree = Tree::new('a');
    assert_eq!(render(&tree), "Tree { 'a' }");
}

#[test]
fn outline_nests_children_in_braces() {
    let mut tree = Tree::new('a');
    {
        let mut root = tree.root_mut();
        root.append('b');
        let mut c = root.append('c');
        c.append('d');
        c.append('e');
    }
    assert_eq!(render(&tree), "Tree { 'a' => { 'b', 'c' => { 'd', 'e' } } }");
}

#[test]
fn outline_puts_commas_between_siblings() {
    let tree = letters();
    assert_eq!(
        render(&tree),
        "Tree { 'a' => { 'b' => { 'd', 'e' => { 'h' }, 'f' }, 'c' => { 'g' } } }"
    );
}

#[test]
fn outline_pieces_read_their_text() {
    let tree = Tree::new('a');
    let pieces = tree.outline();
    assert_eq!(pieces.len(), 4);
    assert_eq!(pieces[0].text(), "Tree {");
    assert_eq!(pieces[1].text(), " ");
    assert_eq!(pieces[2].text(), "");
    assert!(matches!(pieces[2], Piece::Value(n) if n == tree.root()));
    assert_eq!(pieces[3].text(), " }");
    let begin: Piece<char> = Piece::Begin;
    let comma: Piece<char> = Piece::Comma;
    let end: Piece<char> = Piece::End;
    let end_comma: Piece<char> = Piece::EndComma;
    assert_eq!(begin.text(), " => {");
    assert_eq!(comma.text(), ",");
    assert_eq!(end.text(), " }");
    assert_eq!(end_comma.text(), " },");
}

#[test]
fn edges_compare_by_kind_and_node() {
    let tree = letters();
    let copy = tree.clone();
    let edges = tree.root().traverse();
    let again = tree.root().traverse();
    let other = copy.root().traverse();
    assert_eq!(edges.len(), 16);
    for i in 0..edges.len() {
        assert!(edges[i] == again[i]);
        assert!(edges[i] != other[i]);
    }
    assert!(edges[0] != edges[15]);
    assert!(edges[0] != edges[1]);
    assert!(matches!(edges[15], Edge::Close(n) if n == tree.root()));
}

#[test]
fn is_within_tells_what_lies_below_a_node() {
    let mut tree = letters();
    let a = tree.root().id;
    let b = find(&tree, 'b');
    let c = find(&tree, 'c');
    let e = find(&tree, 'e');
    let h = find(&tree, 'h');
    assert!(tree.get(h).unwrap().is_within(h));
    assert!(tree.get(h).unwrap().is_within(e));
    assert!(tree.get(h).unwrap().is_within(b));
    assert!(tree.get(h).unwrap().is_within(a));
    assert!(!tree.get(h).unwrap().is_within(c));
    assert!(!tree.get(b).unwrap().is_within(h));
    assert!(!tree.get(a).unwrap().is_within(b));
    tree.get_mut(e).unwrap().detach();
    assert!(tree.get(h).unwrap().is_within(e));
    assert!(!tree.get(h).unwrap().is_within(b));
    assert!(!tree.get(h).unwrap().is_within(a));
    // e is not above c, so c may take it
    assert!(!tree.get(c).unwrap().is_within(e));
    tree.get_mut(c).unwrap().append_id(e);
    assert!(tree.get(h).unwrap().is_within(c));
    assert_eq!(values(tree.root().descendants()), "abdfcgeh");
}
