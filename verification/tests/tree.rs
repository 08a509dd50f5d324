use blitz_dom::node::Node;
use blitz_dom::node_id::NodeId;
use blitz_dom::tree::NodeTree;

fn plain_node(id: NodeId) -> Node {
    Node {
        id,
        in_document: true,
        is_anonymous: false,
        damaged_descendants: false,
        dirty_descendants: false,
        style: None,
        element: None,
        children: Vec::new(),
        layout_children: None,
        paint_children: None,
        layout_parent: None,
        before: None,
        after: None,
        traverse_layout_children: false,
        stacking_root: false,
        stacking_root_in_flex_or_grid: false,
        has_layout_cache: false,
        subtree_has_floats: false,
        stacking_context: None,
        auto_hoisted: None,
        background_layers: Vec::new(),
        mask_layers: Vec::new(),
        background_images: Vec::new(),
        mask_images: Vec::new(),
    }
}

fn index_of(id: NodeId) -> u64 {
    id.as_u64() & 0xffff_ffff
}

fn version_of(id: NodeId) -> u64 {
    id.as_u64() >> 32
}

#[test]
fn new_tree_is_empty() {
    let tree = NodeTree::new();
    assert_eq!(tree.len(), 0);
    assert!(tree.is_empty());
    assert!(tree.ids().is_empty());
}

#[test]
fn insert_hands_the_node_its_own_id() {
    let mut tree = NodeTree::new();
    let a = tree.insert_with_key(plain_node);
    let b = tree.insert_with_key(plain_node);
    assert_ne!(a, b);
    assert_eq!(tree.len(), 2);
    assert!(!tree.is_empty());
    assert_eq!(tree.get(a).unwrap().id, a);
    assert_eq!(tree.index(b).id, b);
    // The first slot handed out is index 1 (slot 0 is the sentinel), at version 1.
    assert_eq!(a.as_u64(), (1u64 << 32) | 1);
    assert_eq!(b.as_u64(), (1u64 << 32) | 2);
}

#[test]
fn get_mut_and_index_mut_write_through() {
    let mut tree = NodeTree::new();
    let a = tree.insert_with_key(plain_node);
    tree.get_mut(a).unwrap().in_document = false;
    assert!(!tree.get(a).unwrap().in_document);
    tree.index_mut(a).is_anonymous = true;
    assert!(tree.index(a).is_anonymous);
    let missing = NodeId::from_u64((7u64 << 32) | 9);
    assert!(tree.get_mut(missing).is_none());
}

#[test]
fn remove_returns_the_node_once() {
    let mut tree = NodeTree::new();
    let a = tree.insert_with_key(plain_node);
    let b = tree.insert_with_key(plain_node);
    let removed = tree.remove(a).unwrap();
    assert_eq!(removed.id, a);
    assert!(tree.remove(a).is_none());
    assert!(!tree.contains_key(a));
    assert!(tree.contains_key(b));
    assert_eq!(tree.len(), 1);
}

#[test]
fn stale_id_does_not_alias_the_new_occupant() {
    let mut tree = NodeTree::new();
    let a = tree.insert_with_key(plain_node);
    tree.remove(a);
    let b = tree.insert_with_key(plain_node);
    // The slot is reused at a later version.
    assert_eq!(index_of(b), index_of(a));
    assert_eq!(version_of(b), version_of(a) + 2);
    assert!(tree.get(a).is_none());
    assert!(!tree.contains_key(a));
    assert_eq!(tree.get(b).unwrap().id, b);
    // Still stale after more churn in the same slot.
    tree.remove(b);
    let c = tree.insert_with_key(plain_node);
    assert_eq!(index_of(c), index_of(a));
    assert!(tree.get(a).is_none());
    assert!(tree.get(b).is_none());
    assert!(tree.get(c).is_some());
}

#[test]
fn from_opaque_keeps_a_whole_id() {
    let mut tree = NodeTree::new();
    let a = tree.insert_with_key(plain_node);
    assert_eq!(tree.from_opaque(a.as_u64() as usize), Some(a));
    // A value with version bits is handed back as is, live or not.
    let other = (5u64 << 32) | 3;
    assert_eq!(tree.from_opaque(other as usize), Some(NodeId::from_u64(other)));
}

#[test]
fn from_opaque_recovers_a_truncated_id() {
    let mut tree = NodeTree::new();
    let a = tree.insert_with_key(plain_node);
    let b = tree.insert_with_key(plain_node);
    assert_eq!(tree.from_opaque(index_of(a) as usize), Some(a));
    assert_eq!(tree.from_opaque(index_of(b) as usize), Some(b));
    // An empty slot, and one past every slot, give nothing.
    tree.remove(a);
    assert_eq!(tree.from_opaque(index_of(a) as usize), None);
    assert_eq!(tree.from_opaque(40), None);
    assert_eq!(tree.from_opaque(0), None);
    // A reused slot gives its current occupant.
    let c = tree.insert_with_key(plain_node);
    assert_eq!(tree.from_opaque(index_of(a) as usize), Some(c));
}

#[test]
fn ids_and_iter_walk_slots_in_order() {
    let mut tree = NodeTree::new();
    let a = tree.insert_with_key(plain_node);
    let b = tree.insert_with_key(plain_node);
    let c = tree.insert_with_key(plain_node);
    tree.remove(b);
    assert_eq!(tree.ids(), vec![a, c]);
    let pairs = tree.iter();
    assert_eq!(pairs.len(), 2);
    assert_eq!(pairs[0].0, a);
    assert_eq!(pairs[0].1.id, a);
    assert_eq!(pairs[1].0, c);
    assert_eq!(pairs[1].1.id, c);
}

#[test]
fn id_with_even_version_names_the_odd_one() {
    // Keys are looked up with their version made odd, as the slot map does.
    let mut tree = NodeTree::new();
    let a = tree.insert_with_key(plain_node);
    let even = NodeId::from_u64(a.as_u64() & 0xffff_ffff);
    assert!(tree.contains_key(even));
    assert_eq!(tree.get(even).unwrap().id, a);
}
