use blitz_dom::node::{ComputedStyle, DisplayInside, Float, Node, Overflow, Position, StyleData};
use blitz_dom::node_id::NodeId;
use blitz_dom::paint::{
    float_to_order, node_to_paint_order, offset_hoisted, position_to_order, HoistedPaintChild,
    HoistedPaintChildren,
};
use blitz_dom::sort::stable_sort;

fn paint_node(style: Option<ComputedStyle>) -> Node {
    Node {
        id: NodeId::from_u64((1u64 << 32) | 1),
        in_document: true,
        is_anonymous: false,
        damaged_descendants: false,
        dirty_descendants: false,
        style: Some(StyleData { damage: 0, primary: style }),
        element: None,
        children: Vec::new(),
        layout_children: None,
        paint_children: None,
        layout_parent: None,
        before: None,
        after: None,
        traverse_layout_children: false,
        stacking_root: false,
        stacking_root_in_flex_or_grid: false,
        has_layout_cache: false,
        subtree_has_floats: false,
        stacking_context: None,
        auto_hoisted: None,
        background_layers: Vec::new(),
        mask_layers: Vec::new(),
        background_images: Vec::new(),
        mask_images: Vec::new(),
    }
}

fn styled(position: Position, float: Float, order: i32) -> Option<ComputedStyle> {
    Some(ComputedStyle {
        display_inside: DisplayInside::Flow,
        position,
        float,
        overflow_x: Overflow::Visible,
        overflow_y: Overflow::Visible,
        z_index: None,
        order,
    })
}

fn hoisted(raw: u64, z_index: i32) -> HoistedPaintChild {
    HoistedPaintChild { node_id: NodeId::from_u64(raw), z_index, offsets: Vec::new() }
}

fn context_of(zs: &[i32]) -> HoistedPaintChildren {
    let mut sc = HoistedPaintChildren::new();
    for (i, z) in zs.iter().enumerate() {
        sc.children.push(hoisted(i as u64, *z));
    }
    sc
}

#[test]
fn new_context_is_empty() {
    let sc = HoistedPaintChildren::new();
    assert!(sc.children.is_empty());
    assert_eq!(sc.negative_z_count, 0);
    assert_eq!(sc.neg_z_range(), 0..0);
    assert_eq!(sc.pos_z_range(), 0..0);
}

#[test]
fn sort_orders_by_z_and_counts_negatives() {
    let mut sc = context_of(&[3, -2, 0, -5, 3]);
    sc.sort();
    let order: Vec<(u64, i32)> = sc.children.iter().map(|c| (c.node_id.as_u64(), c.z_index)).collect();
    // Stable: the two children at z 3 keep their order.
    assert_eq!(order, vec![(3, -5), (1, -2), (2, 0), (0, 3), (4, 3)]);
    assert_eq!(sc.negative_z_count, 2);
    assert_eq!(sc.neg_z_range(), 0..2);
    assert_eq!(sc.pos_z_range(), 2..5);
    let neg: Vec<i32> = sc.neg_z_hoisted_children().iter().map(|c| c.z_index).collect();
    let pos: Vec<i32> = sc.pos_z_hoisted_children().iter().map(|c| c.z_index).collect();
    assert_eq!(neg, vec![-5, -2]);
    assert_eq!(pos, vec![0, 3, 3]);
}

#[test]
fn sort_with_no_negatives() {
    let mut sc = context_of(&[1, 0, 2]);
    sc.sort();
    assert_eq!(sc.negative_z_count, 0);
    assert!(sc.neg_z_hoisted_children().is_empty());
    assert_eq!(sc.pos_z_hoisted_children().len(), 3);
}

#[test]
fn reset_empties_the_context() {
    let mut sc = context_of(&[-1, 4]);
    sc.sort();
    sc.reset();
    assert!(sc.children.is_empty());
    assert_eq!(sc.negative_z_count, 0);
}

#[test]
fn offsets_are_added_innermost_first() {
    let mut children = vec![hoisted(1, 0), hoisted(2, 3)];
    let inner = NodeId::from_u64(7);
    let outer = NodeId::from_u64(8);
    offset_hoisted(&mut children, inner);
    offset_hoisted(&mut children, outer);
    assert_eq!(children[0].offsets, vec![inner, outer]);
    assert_eq!(children[1].offsets, vec![inner, outer]);
    assert_eq!(children[1].z_index, 3);
}

#[test]
fn position_and_float_orders() {
    assert_eq!(position_to_order(Position::Static), 0);
    assert_eq!(position_to_order(Position::Relative), 2);
    assert_eq!(position_to_order(Position::Sticky), 2);
    assert_eq!(position_to_order(Position::Absolute), 2);
    assert_eq!(position_to_order(Position::Fixed), 2);
    assert_eq!(float_to_order(Float::NoFloat), 0);
    assert_eq!(float_to_order(Float::Left), 1);
    assert_eq!(float_to_order(Float::Right), 1);
    assert_eq!(float_to_order(Float::InlineStart), 1);
}

#[test]
fn paint_order_outside_flex_and_grid() {
    assert_eq!(node_to_paint_order(&paint_node(styled(Position::Static, Float::NoFloat, 4)), false), (0, 0));
    assert_eq!(node_to_paint_order(&paint_node(styled(Position::Static, Float::Left, 0)), false), (1, 0));
    assert_eq!(node_to_paint_order(&paint_node(styled(Position::Absolute, Float::NoFloat, 0)), false), (2, 0));
    // A positioned float paints with the other positioned boxes, not above them.
    assert_eq!(node_to_paint_order(&paint_node(styled(Position::Relative, Float::Right, 0)), false), (2, 0));
    assert_eq!(node_to_paint_order(&paint_node(styled(Position::Sticky, Float::Left, 0)), false), (2, 0));
}

#[test]
fn paint_order_in_flex_and_grid() {
    assert_eq!(node_to_paint_order(&paint_node(styled(Position::Static, Float::NoFloat, 4)), true), (0, 4));
    assert_eq!(node_to_paint_order(&paint_node(styled(Position::Relative, Float::NoFloat, 4)), true), (2, 4));
    assert_eq!(node_to_paint_order(&paint_node(styled(Position::Sticky, Float::NoFloat, -1)), true), (2, -1));
    assert_eq!(node_to_paint_order(&paint_node(styled(Position::Fixed, Float::NoFloat, 4)), true), (2, 0));
}

#[test]
fn paint_order_without_style() {
    assert_eq!(node_to_paint_order(&paint_node(None), true), (0, 0));
    let mut n = paint_node(None);
    n.style = None;
    assert_eq!(node_to_paint_order(&n, false), (0, 0));
}

#[test]
fn stable_sort_keeps_ties_in_order() {
    let v = vec![((1, 0), 'a'), ((0, 5), 'b'), ((1, 0), 'c'), ((0, 1), 'd'), ((-3, 9), 'e')];
    let sorted = stable_sort(v);
    assert_eq!(sorted, vec![((-3, 9), 'e'), ((0, 1), 'd'), ((0, 5), 'b'), ((1, 0), 'a'), ((1, 0), 'c')]);
    assert!(stable_sort(Vec::<((i32, i32), u8)>::new()).is_empty());
}
