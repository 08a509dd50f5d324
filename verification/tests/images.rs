use blitz_dom::document::BaseDocument;
use blitz_dom::images::{
    ImageLayerKind, ImageResource, ImageStatus, ImageType, PendingImage, StyleImage,
};
use blitz_dom::node::{
    ComputedStyle, DisplayInside, ElementData, Float, Node, Overflow, Position, StyleData,
};
use blitz_dom::node_id::NodeId;
use blitz_dom::tree::NodeTree;

fn image_node(id: NodeId) -> Node {
    Node {
        id,
        in_document: true,
        is_anonymous: false,
        damaged_descendants: false,
        dirty_descendants: false,
        style: Some(StyleData {
            damage: 0,
            primary: Some(ComputedStyle {
                display_inside: DisplayInside::Flow,
                position: Position::Static,
                float: Float::NoFloat,
                overflow_x: Overflow::Visible,
                overflow_y: Overflow::Visible,
                z_index: None,
                order: 0,
            }),
        }),
        element: Some(ElementData { inline_layout: None, is_text_input: false }),
        children: Vec::new(),
        layout_children: None,
        paint_children: None,
        layout_parent: None,
        before: None,
        after: None,
        traverse_layout_children: false,
        stacking_root: false,
        stacking_root_in_flex_or_grid: false,
        has_layout_cache: false,
        subtree_has_floats: false,
        stacking_context: None,
        auto_hoisted: None,
        background_layers: Vec::new(),
        mask_layers: Vec::new(),
        background_images: Vec::new(),
        mask_images: Vec::new(),
    }
}

fn image_document() -> BaseDocument {
    BaseDocument {
        nodes: NodeTree::new(),
        incremental_layout: true,
        pending_style_image_nodes: Vec::new(),
        image_cache: Vec::new(),
        pending_images: Vec::new(),
    }
}

fn url(s: &str) -> StyleImage {
    StyleImage::Url(s.to_string())
}

fn slot(doc: &BaseDocument, id: NodeId, kind: ImageLayerKind, idx: usize) -> Option<(String, ImageStatus, Option<u64>)> {
    let n = doc.nodes.get(id).unwrap();
    let slots = match kind {
        ImageLayerKind::Background => &n.background_images,
        ImageLayerKind::Mask => &n.mask_images,
    };
    slots[idx].as_ref().map(|r| (r.url.clone(), r.status, r.image))
}

fn fetch_list(fetches: &[blitz_dom::images::ImageFetch]) -> Vec<(String, NodeId, ImageType)> {
    fetches.iter().map(|f| (f.url.clone(), f.node_id, f.image_type)).collect()
}

#[test]
fn new_url_starts_a_fetch() {
    let mut doc = image_document();
    let a = doc.nodes.insert_with_key(image_node);
    doc.nodes.index_mut(a).background_layers = vec![url("a.png"), StyleImage::Other];
    let fetches = doc.flush_image_layers_from_style(a, ImageLayerKind::Background);
    assert_eq!(fetch_list(&fetches), vec![("a.png".to_string(), a, ImageType::Background(0))]);
    assert_eq!(doc.nodes.get(a).unwrap().background_images.len(), 2);
    assert_eq!(slot(&doc, a, ImageLayerKind::Background, 0), Some(("a.png".to_string(), ImageStatus::Loading, None)));
    assert_eq!(slot(&doc, a, ImageLayerKind::Background, 1), None);
    assert_eq!(doc.pending_images.len(), 1);
    assert_eq!(doc.pending_images[0].url, "a.png");
    assert_eq!(doc.pending_images[0].waiting, vec![(a, ImageType::Background(0))]);
}

#[test]
fn unchanged_url_keeps_its_image() {
    let mut doc = image_document();
    let a = doc.nodes.insert_with_key(image_node);
    doc.nodes.index_mut(a).mask_layers = vec![url("m.png")];
    doc.nodes.index_mut(a).mask_images = vec![Some(ImageResource {
        url: "m.png".to_string(),
        status: ImageStatus::Loaded,
        image: Some(9),
    })];
    let fetches = doc.flush_image_layers_from_style(a, ImageLayerKind::Mask);
    assert!(fetches.is_empty());
    assert!(doc.pending_images.is_empty());
    assert_eq!(slot(&doc, a, ImageLayerKind::Mask, 0), Some(("m.png".to_string(), ImageStatus::Loaded, Some(9))));
}

#[test]
fn cached_image_shows_at_once() {
    let mut doc = image_document();
    doc.image_cache.push(("b.png".to_string(), 7));
    let a = doc.nodes.insert_with_key(image_node);
    doc.nodes.index_mut(a).background_layers = vec![url("b.png")];
    let fetches = doc.flush_image_layers_from_style(a, ImageLayerKind::Background);
    assert!(fetches.is_empty());
    assert_eq!(slot(&doc, a, ImageLayerKind::Background, 0), Some(("b.png".to_string(), ImageStatus::Loaded, Some(7))));
}

#[test]
fn pending_image_queues_the_layer() {
    let mut doc = image_document();
    let a = doc.nodes.insert_with_key(image_node);
    let b = doc.nodes.insert_with_key(image_node);
    doc.pending_images.push(PendingImage { url: "c.png".to_string(), waiting: vec![(a, ImageType::Mask(0))] });
    doc.nodes.index_mut(b).background_layers = vec![StyleImage::Other, url("c.png")];
    let fetches = doc.flush_image_layers_from_style(b, ImageLayerKind::Background);
    assert!(fetches.is_empty());
    assert_eq!(doc.pending_images.len(), 1);
    assert_eq!(doc.pending_images[0].waiting, vec![(a, ImageType::Mask(0)), (b, ImageType::Background(1))]);
    assert_eq!(slot(&doc, b, ImageLayerKind::Background, 1), Some(("c.png".to_string(), ImageStatus::Loading, None)));
}

#[test]
fn same_url_twice_fetches_once() {
    let mut doc = image_document();
    let a = doc.nodes.insert_with_key(image_node);
    doc.nodes.index_mut(a).background_layers = vec![url("d.png"), url("d.png")];
    let fetches = doc.flush_image_layers_from_style(a, ImageLayerKind::Background);
    assert_eq!(fetch_list(&fetches), vec![("d.png".to_string(), a, ImageType::Background(0))]);
    assert_eq!(
        doc.pending_images[0].waiting,
        vec![(a, ImageType::Background(0)), (a, ImageType::Background(1))]
    );
}

#[test]
fn slots_shrink_to_the_layer_count() {
    let mut doc = image_document();
    let a = doc.nodes.insert_with_key(image_node);
    let old = |u: &str| Some(ImageResource { url: u.to_string(), status: ImageStatus::Loaded, image: Some(1) });
    doc.nodes.index_mut(a).background_images = vec![old("x.png"), old("y.png"), old("z.png")];
    doc.nodes.index_mut(a).background_layers = vec![url("x.png")];
    let fetches = doc.flush_image_layers_from_style(a, ImageLayerKind::Background);
    assert!(fetches.is_empty());
    assert_eq!(doc.nodes.get(a).unwrap().background_images.len(), 1);
    assert_eq!(slot(&doc, a, ImageLayerKind::Background, 0), Some(("x.png".to_string(), ImageStatus::Loaded, Some(1))));
}

#[test]
fn node_without_element_data_is_left_alone() {
    let mut doc = image_document();
    let a = doc.nodes.insert_with_key(image_node);
    doc.nodes.index_mut(a).element = None;
    doc.nodes.index_mut(a).background_layers = vec![url("e.png")];
    let fetches = doc.flush_image_layers_from_style(a, ImageLayerKind::Background);
    assert!(fetches.is_empty());
    assert!(doc.nodes.get(a).unwrap().background_images.is_empty());
    assert!(doc.pending_images.is_empty());
}

#[test]
fn pending_style_images_flush_each_live_node_once() {
    let mut doc = image_document();
    let a = doc.nodes.insert_with_key(image_node);
    let b = doc.nodes.insert_with_key(image_node);
    let gone = doc.nodes.insert_with_key(image_node);
    doc.nodes.index_mut(a).background_layers = vec![url("a.png")];
    doc.nodes.index_mut(a).mask_layers = vec![url("am.png")];
    doc.nodes.index_mut(b).background_layers = vec![url("b.png")];
    doc.nodes.index_mut(gone).background_layers = vec![url("g.png")];
    doc.nodes.remove(gone);
    doc.pending_style_image_nodes = vec![b, a, gone, b, a];
    let fetches = doc.flush_pending_style_images();
    assert!(doc.pending_style_image_nodes.is_empty());
    // By increasing id, background before mask; the removed node is skipped.
    assert_eq!(
        fetch_list(&fetches),
        vec![
            ("a.png".to_string(), a, ImageType::Background(0)),
            ("am.png".to_string(), a, ImageType::Mask(0)),
            ("b.png".to_string(), b, ImageType::Background(0)),
        ]
    );
    assert_eq!(doc.pending_images.len(), 3);
}

#[test]
fn pending_style_images_with_nothing_queued() {
    let mut doc = image_document();
    let fetches = doc.flush_pending_style_images();
    assert!(fetches.is_empty());
    assert!(doc.pending_images.is_empty());
}

#[test]
fn second_flush_changes_nothing() {
    let mut doc = image_document();
    doc.image_cache.push(("c.png".to_string(), 3));
    let a = doc.nodes.insert_with_key(image_node);
    doc.nodes.index_mut(a).background_layers = vec![url("n.png"), StyleImage::Other, url("c.png")];
    let first = doc.flush_image_layers_from_style(a, ImageLayerKind::Background);
    assert_eq!(first.len(), 1);
    let second = doc.flush_image_layers_from_style(a, ImageLayerKind::Background);
    assert!(second.is_empty());
    assert_eq!(doc.pending_images.len(), 1);
    assert_eq!(doc.pending_images[0].waiting, vec![(a, ImageType::Background(0))]);
    assert_eq!(slot(&doc, a, ImageLayerKind::Background, 0), Some(("n.png".to_string(), ImageStatus::Loading, None)));
    assert_eq!(slot(&doc, a, ImageLayerKind::Background, 1), None);
    assert_eq!(slot(&doc, a, ImageLayerKind::Background, 2), Some(("c.png".to_string(), ImageStatus::Loaded, Some(3))));
}

#[test]
fn pending_list_order_and_duplicates_make_no_difference() {
    let run = |pending: fn(NodeId, NodeId) -> Vec<NodeId>| {
        let mut doc = image_document();
        let a = doc.nodes.insert_with_key(image_node);
        let b = doc.nodes.insert_with_key(image_node);
        doc.nodes.index_mut(a).background_layers = vec![url("a.png")];
        doc.nodes.index_mut(b).background_layers = vec![url("b.png")];
        doc.pending_style_image_nodes = pending(a, b);
        fetch_list(&doc.flush_pending_style_images())
    };
    let first = run(|a, b| vec![a, b]);
    let second = run(|a, b| vec![b, a, b, a, a]);
    assert_eq!(first, second);
    assert_eq!(first.len(), 2);
}
