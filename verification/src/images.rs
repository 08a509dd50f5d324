//! Flushing CSS image layers from style to the element's image slots.
use vstd::prelude::*;

use crate::document::{live, node_at, BaseDocument};
use crate::node::{ComputedStyle, Node};
use crate::node_id::NodeId;
use crate::slot_store::slot_key;

verus! {

/// An image layer of a computed style: a valid URL, or anything else
/// (`none`, a gradient, an invalid URL).
pub enum StyleImage {
    Url(String),
    Other,
}

/// The load status of an element's image.
#[derive(Clone, Copy, PartialEq, Eq, Structural, Debug)]
pub enum ImageStatus {
    Loaded,
    Loading,
}

/// An image an element shows in one of its layers.
pub struct ImageResource {
    pub url: String,
    pub status: ImageStatus,
    /// The handle of the loaded image, once there is one.
    pub image: Option<u64>,
}

/// Which image layer list.
#[derive(Clone, Copy, PartialEq, Eq, Structural, Debug)]
pub enum ImageLayerKind {
    Background,
    Mask,
}

/// A layer of a node that an image is for.
#[derive(Clone, Copy, PartialEq, Eq, Structural, Debug)]
pub enum ImageType {
    Background(usize),
    Mask(usize),
}

/// An image being fetched, with the nodes and layers waiting on it.
pub struct PendingImage {
    pub url: String,
    pub waiting: Vec<(NodeId, ImageType)>,
}

/// An image fetch to start.
pub struct ImageFetch {
    pub url: String,
    pub node_id: NodeId,
    pub image_type: ImageType,
}

/// What a style image layer is: its URL, if it is a valid one.
pub open spec fn layer_view(l: StyleImage) -> Option<Seq<char>> {
    match l {
        StyleImage::Url(u) => Some(u@),
        StyleImage::Other => None,
    }
}

/// What an element's image is: URL, status, image handle.
pub type ResourceView = (Seq<char>, ImageStatus, Option<u64>);

pub open spec fn slot_view(s: Option<ImageResource>) -> Option<ResourceView> {
    match s {
        Some(r) => Some((r.url@, r.status, r.image)),
        None => None,
    }
}

pub open spec fn slot_views(s: Seq<Option<ImageResource>>) -> Seq<Option<ResourceView>> {
    s.map_values(|x: Option<ImageResource>| slot_view(x))
}

pub open spec fn layer_views(s: Seq<StyleImage>) -> Seq<Option<Seq<char>>> {
    s.map_values(|x: StyleImage| layer_view(x))
}

pub open spec fn cache_views(s: Seq<(String, u64)>) -> Seq<(Seq<char>, u64)> {
    s.map_values(|x: (String, u64)| (x.0@, x.1))
}

pub open spec fn pending_views(s: Seq<PendingImage>) -> Seq<(Seq<char>, Seq<(NodeId, ImageType)>)> {
    s.map_values(|x: PendingImage| (x.url@, x.waiting@))
}

pub open spec fn fetch_views(s: Seq<ImageFetch>) -> Seq<(Seq<char>, NodeId, ImageType)> {
    s.map_values(|x: ImageFetch| (x.url@, x.node_id, x.image_type))
}

/// The layer of an image list with index `idx`.
pub open spec fn image_type(kind: ImageLayerKind, idx: usize) -> ImageType {
    match kind {
        ImageLayerKind::Background => ImageType::Background(idx),
        ImageLayerKind::Mask => ImageType::Mask(idx),
    }
}

/// The image of the first cache entry with URL `url`.
pub open spec fn cache_lookup(cache: Seq<(Seq<char>, u64)>, url: Seq<char>) -> Option<u64>
    decreases cache.len(),
{
    if cache.len() == 0 {
        None
    } else if cache[0].0 == url {
        Some(cache[0].1)
    } else {
        cache_lookup(cache.drop_first(), url)
    }
}

/// The index of the first pending image with URL `url`.
pub open spec fn pending_lookup(pending: Seq<(Seq<char>, Seq<(NodeId, ImageType)>)>, url: Seq<char>) -> Option<int>
    decreases pending.len(),
{
    if pending.len() == 0 {
        None
    } else if pending[0].0 == url {
        Some(0)
    } else {
        match pending_lookup(pending.drop_first(), url) {
            Some(i) => Some(i + 1),
            None => None,
        }
    }
}

/// Whether no URL occurs twice in a list keyed by URL.
pub open spec fn urls_unique<V>(s: Seq<(Seq<char>, V)>) -> bool {
    forall|i: int, j: int| 0 <= i < j < s.len() ==> (#[trigger] s[i]).0 != (#[trigger] s[j]).0
}

/// What the pending lookup finds: the index of an entry with the URL, or
/// none when no entry has it.
proof fn lemma_pending_lookup(pending: Seq<(Seq<char>, Seq<(NodeId, ImageType)>)>, url: Seq<char>)
    ensures
        pending_lookup(pending, url) matches Some(i) ==> 0 <= i < pending.len() && pending[i].0 == url,
        pending_lookup(pending, url) is None ==> forall|i: int| 0 <= i < pending.len() ==> (#[trigger] pending[i]).0 != url,
    decreases pending.len(),
{
    if pending.len() > 0 && pending[0].0 != url {
        let rest = pending.drop_first();
        lemma_pending_lookup(rest, url);
        assert forall|i: int| 0 < i < pending.len() implies pending[i] == rest[i - 1] by {}
    }
}

/// The state that flushing image layers reads and writes.
pub ghost struct ImageFlushState {
    pub slots: Seq<Option<ResourceView>>,
    pub pending: Seq<(Seq<char>, Seq<(NodeId, ImageType)>)>,
    pub fetches: Seq<(Seq<char>, NodeId, ImageType)>,
}

/// One layer flushed: an unchanged URL keeps its image; a cached image is
/// shown at once; an image already being fetched gets this layer added to
/// its waiting list; any other URL starts a fetch. A layer without a valid
/// URL has no image.
pub open spec fn layer_flushed(
    st: ImageFlushState,
    cache: Seq<(Seq<char>, u64)>,
    node_id: NodeId,
    kind: ImageLayerKind,
    idx: usize,
    layer: Option<Seq<char>>,
) -> ImageFlushState {
    match layer {
        None => ImageFlushState { slots: st.slots.update(idx as int, None), ..st },
        Some(url) => {
            let ty = image_type(kind, idx);
            if st.slots[idx as int] matches Some(old) && old.0 == url {
                st
            } else {
                match cache_lookup(cache, url) {
                    Some(image) => ImageFlushState {
                        slots: st.slots.update(idx as int, Some((url, ImageStatus::Loaded, Some(image)))),
                        ..st
                    },
                    None => {
                        let slots = st.slots.update(idx as int, Some((url, ImageStatus::Loading, None)));
                        match pending_lookup(st.pending, url) {
                            Some(p) => ImageFlushState {
                                slots,
                                pending: st.pending.update(p, (st.pending[p].0, st.pending[p].1.push((node_id, ty)))),
                                ..st
                            },
                            None => ImageFlushState {
                                slots,
                                pending: st.pending.push((url, seq![(node_id, ty)])),
                                fetches: st.fetches.push((url, node_id, ty)),
                            },
                        }
                    },
                }
            }
        },
    }
}

/// The layers from `idx` on flushed in turn.
pub open spec fn layers_flushed(
    st: ImageFlushState,
    cache: Seq<(Seq<char>, u64)>,
    node_id: NodeId,
    kind: ImageLayerKind,
    layers: Seq<Option<Seq<char>>>,
    idx: nat,
) -> ImageFlushState
    decreases layers.len() - idx,
{
    if idx >= layers.len() || idx > usize::MAX {
        st
    } else {
        layers_flushed(
            layer_flushed(st, cache, node_id, kind, idx as usize, layers[idx as int]),
            cache,
            node_id,
            kind,
            layers,
            idx + 1,
        )
    }
}

/// Flushing one layer adds a pending URL only where none is pending, so the
/// pending URLs stay distinct.
proof fn lemma_layer_flushed_unique(
    st: ImageFlushState,
    cache: Seq<(Seq<char>, u64)>,
    node_id: NodeId,
    kind: ImageLayerKind,
    idx: usize,
    layer: Option<Seq<char>>,
)
    requires
        urls_unique(st.pending),
    ensures
        urls_unique(layer_flushed(st, cache, node_id, kind, idx, layer).pending),
{
    if let Some(url) = layer {
        lemma_pending_lookup(st.pending, url);
        let r = layer_flushed(st, cache, node_id, kind, idx, layer).pending;
        match pending_lookup(st.pending, url) {
            Some(p) => {
                assert forall|i: int| 0 <= i < r.len() implies (#[trigger] r[i]).0 == st.pending[i].0 by {}
            },
            None => {
                assert forall|i: int| 0 <= i < st.pending.len() implies (#[trigger] r[i]) == st.pending[i] by {}
            },
        }
    }
}

/// Flushing layers keeps the pending URLs distinct.
proof fn lemma_layers_flushed_unique(
    st: ImageFlushState,
    cache: Seq<(Seq<char>, u64)>,
    node_id: NodeId,
    kind: ImageLayerKind,
    layers: Seq<Option<Seq<char>>>,
    idx: nat,
)
    requires
        urls_unique(st.pending),
    ensures
        urls_unique(layers_flushed(st, cache, node_id, kind, layers, idx).pending),
    decreases layers.len() - idx,
{
    if !(idx >= layers.len() || idx > usize::MAX) {
        lemma_layer_flushed_unique(st, cache, node_id, kind, idx as usize, layers[idx as int]);
        lemma_layers_flushed_unique(
            layer_flushed(st, cache, node_id, kind, idx as usize, layers[idx as int]),
            cache,
            node_id,
            kind,
            layers,
            idx + 1,
        );
    }
}

/// Whether an image slot shows what its layer names: no image for a layer
/// without a valid URL, else an image of the layer's URL.
pub open spec fn slot_matches(slot: Option<ResourceView>, layer: Option<Seq<char>>) -> bool {
    match layer {
        None => slot is None,
        Some(url) => slot is Some && slot.unwrap().0 == url,
    }
}

/// Flushing the layers from `idx` on leaves each of those slots matching its
/// layer, and the slots before `idx` as they were.
proof fn lemma_layers_flushed_match(
    st: ImageFlushState,
    cache: Seq<(Seq<char>, u64)>,
    node_id: NodeId,
    kind: ImageLayerKind,
    layers: Seq<Option<Seq<char>>>,
    idx: nat,
)
    requires
        st.slots.len() == layers.len(),
        layers.len() <= usize::MAX,
    ensures
        ({
            let r = layers_flushed(st, cache, node_id, kind, layers, idx);
            &&& r.slots.len() == layers.len()
            &&& forall|i: int| idx <= i < layers.len() ==> slot_matches(#[trigger] r.slots[i], layers[i])
            &&& forall|i: int| 0 <= i < idx && i < layers.len() ==> #[trigger] r.slots[i] == st.slots[i]
        }),
    decreases layers.len() - idx,
{
    if idx < layers.len() {
        let st1 = layer_flushed(st, cache, node_id, kind, idx as usize, layers[idx as int]);
        lemma_layers_flushed_match(st1, cache, node_id, kind, layers, idx + 1);
        assert(slot_matches(st1.slots[idx as int], layers[idx as int]));
    }
}

/// Flushing layers whose slots already match them changes nothing.
proof fn lemma_layers_flushed_fixed(
    st: ImageFlushState,
    cache: Seq<(Seq<char>, u64)>,
    node_id: NodeId,
    kind: ImageLayerKind,
    layers: Seq<Option<Seq<char>>>,
    idx: nat,
)
    requires
        st.slots.len() == layers.len(),
        layers.len() <= usize::MAX,
        forall|i: int| idx <= i < layers.len() ==> slot_matches(#[trigger] st.slots[i], layers[i]),
    ensures
        layers_flushed(st, cache, node_id, kind, layers, idx) == st,
    decreases layers.len() - idx,
{
    if idx < layers.len() {
        let st1 = layer_flushed(st, cache, node_id, kind, idx as usize, layers[idx as int]);
        assert(slot_matches(st.slots[idx as int], layers[idx as int]));
        if layers[idx as int] is None {
            assert(st1.slots =~= st.slots);
        }
        assert(st1 == st);
        lemma_layers_flushed_fixed(st, cache, node_id, kind, layers, idx + 1);
    }
}

/// Flushing a layer list twice in a row: the second flush changes nothing
/// and starts no fetch, since every slot then shows what its layer names.
pub proof fn lemma_layers_flush_settles(
    st: ImageFlushState,
    cache: Seq<(Seq<char>, u64)>,
    node_id: NodeId,
    kind: ImageLayerKind,
    layers: Seq<Option<Seq<char>>>,
)
    requires
        st.slots.len() == layers.len(),
        layers.len() <= usize::MAX,
    ensures
        ({
            let r = layers_flushed(st, cache, node_id, kind, layers, 0);
            let again = ImageFlushState {
                slots: resized(r.slots, layers.len()),
                pending: r.pending,
                fetches: Seq::empty(),
            };
            layers_flushed(again, cache, node_id, kind, layers, 0) == again && again.slots == r.slots
        }),
{
    let r = layers_flushed(st, cache, node_id, kind, layers, 0);
    lemma_layers_flushed_match(st, cache, node_id, kind, layers, 0);
    assert(resized(r.slots, layers.len()) =~= r.slots);
    let again = ImageFlushState { slots: resized(r.slots, layers.len()), pending: r.pending, fetches: Seq::empty() };
    lemma_layers_flushed_fixed(again, cache, node_id, kind, layers, 0);
}

/// Image slots resized to `len`: cut, or filled up with no image.
pub open spec fn resized(s: Seq<Option<ResourceView>>, len: nat) -> Seq<Option<ResourceView>> {
    if len <= s.len() {
        s.take(len as int)
    } else {
        s + Seq::new((len - s.len()) as nat, |i: int| None)
    }
}

/// The style image layers of a node, by kind.
pub open spec fn style_layers(n: Node, kind: ImageLayerKind) -> Seq<StyleImage> {
    match kind {
        ImageLayerKind::Background => n.background_layers@,
        ImageLayerKind::Mask => n.mask_layers@,
    }
}

/// The image slots of a node, by kind.
pub open spec fn image_slots(n: Node, kind: ImageLayerKind) -> Seq<Option<ImageResource>> {
    match kind {
        ImageLayerKind::Background => n.background_images@,
        ImageLayerKind::Mask => n.mask_images@,
    }
}

/// Whether `b` is `a` with at most its image slots of `kind` changed.
pub open spec fn same_except_images(a: Node, b: Node, kind: ImageLayerKind) -> bool {
    match kind {
        ImageLayerKind::Background => b == Node { background_images: b.background_images, ..a },
        ImageLayerKind::Mask => b == Node { mask_images: b.mask_images, ..a },
    }
}

/// Whether the node has what its image layers are flushed from: a primary
/// style, and element data.
pub open spec fn has_image_layers(n: Node) -> bool {
    &&& n.style is Some
    &&& n.style.unwrap().primary is Some
    &&& n.element is Some
}

/// The state flushing starts from for a node.
pub open spec fn start_state(doc_pending: Seq<PendingImage>, n: Node, kind: ImageLayerKind) -> ImageFlushState {
    ImageFlushState {
        slots: resized(slot_views(image_slots(n, kind)), style_layers(n, kind).len()),
        pending: pending_views(doc_pending),
        fetches: Seq::empty(),
    }
}

impl BaseDocument {
    /// The invariant of the document's image lists, which are keyed by URL:
    /// no URL is cached twice, and none is being fetched twice.
    pub open spec fn image_lists_wf(&self) -> bool {
        &&& urls_unique(cache_views(self.image_cache@))
        &&& urls_unique(pending_views(self.pending_images@))
    }

    /// The image of the first cache entry with URL `url`.
    fn cached_image(&self, url: &String) -> (r: Option<u64>)
        ensures
            r == cache_lookup(cache_views(self.image_cache@), url@),
    {
        let ghost all = cache_views(self.image_cache@);
        let mut i: usize = 0;
        assert(all.skip(0) =~= all);
        while i < self.image_cache.len()
            invariant
                0 <= i <= self.image_cache.len(),
                all == cache_views(self.image_cache@),
                cache_lookup(all, url@) == cache_lookup(all.skip(i as int), url@),
            decreases self.image_cache.len() - i,
        {
            proof {
                assert(all.skip(i as int).drop_first() =~= all.skip(i + 1));
                assert(all.skip(i as int)[0] == (self.image_cache@[i as int].0@, self.image_cache@[i as int].1));
            }
            if self.image_cache[i].0 == *url {
                return Some(self.image_cache[i].1);
            }
            i = i + 1;
        }
        proof {
            assert(all.skip(i as int) =~= Seq::<(Seq<char>, u64)>::empty());
        }
        None
    }

    /// The index of the first pending image with URL `url`.
    fn pending_image(&self, url: &String) -> (r: Option<usize>)
        ensures
            r matches Some(i) ==> pending_lookup(pending_views(self.pending_images@), url@) == Some(i as int),
            r is None ==> pending_lookup(pending_views(self.pending_images@), url@) is None,
            r matches Some(i) ==> i < self.pending_images.len(),
    {
        let ghost all = pending_views(self.pending_images@);
        let mut i: usize = 0;
        assert(all.skip(0) =~= all);
        while i < self.pending_images.len()
            invariant
                0 <= i <= self.pending_images.len(),
                all == pending_views(self.pending_images@),
                forall|j: int| 0 <= j < i ==> (#[trigger] all[j]).0 != url@,
                pending_lookup(all, url@) == match pending_lookup(all.skip(i as int), url@) {
                    Some(j) => Some(j + i),
                    None => None::<int>,
                },
            decreases self.pending_images.len() - i,
        {
            proof {
                assert(all.skip(i as int).drop_first() =~= all.skip(i + 1));
                assert(all.skip(i as int)[0] == all[i as int]);
            }
            if self.pending_images[i].url == *url {
                return Some(i);
            }
            i = i + 1;
        }
        proof {
            assert(all.skip(i as int) =~= Seq::<(Seq<char>, Seq<(NodeId, ImageType)>)>::empty());
        }
        None
    }

    /// The URL of a style image layer of the node at `node_id`, if it is a
    /// valid one.
    fn layer_url(&self, node_id: NodeId, kind: ImageLayerKind, idx: usize) -> (r: Option<String>)
        requires
            live(self.nodes@, node_id),
            idx < style_layers(node_at(self.nodes@, node_id), kind).len(),
        ensures
            r matches Some(u) ==> layer_view(style_layers(node_at(self.nodes@, node_id), kind)[idx as int]) == Some(u@),
            r is None ==> layer_view(style_layers(node_at(self.nodes@, node_id), kind)[idx as int]) is None,
    {
        let node = self.nodes.index(node_id);
        let layer = match kind {
            ImageLayerKind::Background => &node.background_layers[idx],
            ImageLayerKind::Mask => &node.mask_layers[idx],
        };
        match layer {
            StyleImage::Url(u) => Some(u.clone()),
            StyleImage::Other => None,
        }
    }

    /// Whether an image slot of the node at `node_id` shows URL `url`.
    fn slot_has_url(&self, node_id: NodeId, kind: ImageLayerKind, idx: usize, url: &String) -> (b: bool)
        requires
            live(self.nodes@, node_id),
            idx < image_slots(node_at(self.nodes@, node_id), kind).len(),
        ensures
            b == (slot_view(image_slots(node_at(self.nodes@, node_id), kind)[idx as int]) matches Some(old)
                && old.0 == url@),
    {
        let node = self.nodes.index(node_id);
        let slot = match kind {
            ImageLayerKind::Background => &node.background_images[idx],
            ImageLayerKind::Mask => &node.mask_images[idx],
        };
        match slot {
            Some(r) => r.url == *url,
            None => false,
        }
    }

    /// Set an image slot of the node at `node_id`.
    fn set_slot(&mut self, node_id: NodeId, kind: ImageLayerKind, idx: usize, v: Option<ImageResource>)
        requires
            old(self).nodes.wf(),
            live(old(self).nodes@, node_id),
            idx < image_slots(node_at(old(self).nodes@, node_id), kind).len(),
        ensures
            final(self).nodes.wf(),
            final(self).nodes@ == old(self).nodes@.insert(slot_key(node_id@), final(self).nodes@[slot_key(node_id@)]),
            same_except_images(node_at(old(self).nodes@, node_id), node_at(final(self).nodes@, node_id), kind),
            image_slots(node_at(final(self).nodes@, node_id), kind) == image_slots(
                node_at(old(self).nodes@, node_id),
                kind,
            ).update(idx as int, v),
            final(self).incremental_layout == old(self).incremental_layout,
            final(self).pending_style_image_nodes@ == old(self).pending_style_image_nodes@,
            final(self).image_cache@ == old(self).image_cache@,
            final(self).pending_images@ == old(self).pending_images@,
    {
        let node = self.nodes.index_mut(node_id);
        match kind {
            ImageLayerKind::Background => node.background_images.set(idx, v),
            ImageLayerKind::Mask => node.mask_images.set(idx, v),
        }
    }

    /// Resize the image slots of the node at `node_id` to `len`.
    fn resize_slots(&mut self, node_id: NodeId, kind: ImageLayerKind, len: usize)
        requires
            old(self).nodes.wf(),
            live(old(self).nodes@, node_id),
        ensures
            final(self).nodes.wf(),
            final(self).nodes@ == old(self).nodes@.insert(slot_key(node_id@), final(self).nodes@[slot_key(node_id@)]),
            same_except_images(node_at(old(self).nodes@, node_id), node_at(final(self).nodes@, node_id), kind),
            slot_views(image_slots(node_at(final(self).nodes@, node_id), kind)) == resized(
                slot_views(image_slots(node_at(old(self).nodes@, node_id), kind)),
                len as nat,
            ),
            final(self).incremental_layout == old(self).incremental_layout,
            final(self).pending_style_image_nodes@ == old(self).pending_style_image_nodes@,
            final(self).image_cache@ == old(self).image_cache@,
            final(self).pending_images@ == old(self).pending_images@,
    {
        let node = self.nodes.index_mut(node_id);
        match kind {
            ImageLayerKind::Background => resize_image_slots(&mut node.background_images, len),
            ImageLayerKind::Mask => resize_image_slots(&mut node.mask_images, len),
        }
    }

    /// Flush one image layer of the node at `node_id`; a fetch it starts is
    /// added to `fetches`.
    #[verifier::rlimit(40)]
    fn flush_layer(&mut self, node_id: NodeId, kind: ImageLayerKind, idx: usize, fetches: &mut Vec<ImageFetch>)
        requires
            old(self).nodes.wf(),
            live(old(self).nodes@, node_id),
            idx < style_layers(node_at(old(self).nodes@, node_id), kind).len(),
            image_slots(node_at(old(self).nodes@, node_id), kind).len() == style_layers(
                node_at(old(self).nodes@, node_id),
                kind,
            ).len(),
        ensures
            final(self).nodes.wf(),
            final(self).nodes@ == old(self).nodes@.insert(slot_key(node_id@), final(self).nodes@[slot_key(node_id@)]),
            same_except_images(node_at(old(self).nodes@, node_id), node_at(final(self).nodes@, node_id), kind),
            (ImageFlushState {
                slots: slot_views(image_slots(node_at(final(self).nodes@, node_id), kind)),
                pending: pending_views(final(self).pending_images@),
                fetches: fetch_views(final(fetches)@),
            }) == layer_flushed(
                ImageFlushState {
                    slots: slot_views(image_slots(node_at(old(self).nodes@, node_id), kind)),
                    pending: pending_views(old(self).pending_images@),
                    fetches: fetch_views(old(fetches)@),
                },
                cache_views(old(self).image_cache@),
                node_id,
                kind,
                idx,
                layer_views(style_layers(node_at(old(self).nodes@, node_id), kind))[idx as int],
            ),
            final(self).incremental_layout == old(self).incremental_layout,
            final(self).pending_style_image_nodes@ == old(self).pending_style_image_nodes@,
            final(self).image_cache@ == old(self).image_cache@,
    {
        let ghost n0 = node_at(self.nodes@, node_id);
        let ghost slots0 = slot_views(image_slots(n0, kind));
        let ghost pending0 = pending_views(self.pending_images@);
        let ghost fetches0 = fetch_views(fetches@);
        let ty = match kind {
            ImageLayerKind::Background => ImageType::Background(idx),
            ImageLayerKind::Mask => ImageType::Mask(idx),
        };
        match self.layer_url(node_id, kind, idx) {
            None => {
                self.set_slot(node_id, kind, idx, None);
                proof {
                    assert(slot_views(image_slots(node_at(self.nodes@, node_id), kind)) =~= slots0.update(idx as int, None));
                }
            },
            Some(url) => {
                if self.slot_has_url(node_id, kind, idx, &url) {
                    proof {
                        assert(self.nodes@ =~= self.nodes@.insert(slot_key(node_id@), self.nodes@[slot_key(node_id@)]));
                    }
                    return;
                }
                match self.cached_image(&url) {
                    Some(image) => {
                        let res = ImageResource { url, status: ImageStatus::Loaded, image: Some(image) };
                        self.set_slot(node_id, kind, idx, Some(res));
                        proof {
                            assert(slot_views(image_slots(node_at(self.nodes@, node_id), kind)) =~= slots0.update(
                                idx as int,
                                Some((url@, ImageStatus::Loaded, Some(image))),
                            ));
                        }
                    },
                    None => {
                        match self.pending_image(&url) {
                            Some(p) => {
                                let ghost before = self.pending_images@;
                                self.pending_images[p].waiting.push((node_id, ty));
                                proof {
                                    assert(pending_views(self.pending_images@) =~= pending0.update(
                                        p as int,
                                        (pending0[p as int].0, pending0[p as int].1.push((node_id, ty))),
                                    ));
                                }
                            },
                            None => {
                                let mut waiting: Vec<(NodeId, ImageType)> = Vec::new();
                                waiting.push((node_id, ty));
                                self.pending_images.push(PendingImage { url: url.clone(), waiting });
                                fetches.push(ImageFetch { url: url.clone(), node_id, image_type: ty });
                                proof {
                                    assert(pending_views(self.pending_images@) =~= pending0.push((url@, seq![(node_id, ty)])));
                                    assert(fetch_views(fetches@) =~= fetches0.push((url@, node_id, ty)));
                                }
                            },
                        }
                        let ghost url_v = url@;
                        let res = ImageResource { url, status: ImageStatus::Loading, image: None };
                        self.set_slot(node_id, kind, idx, Some(res));
                        proof {
                            assert(slot_views(image_slots(node_at(self.nodes@, node_id), kind)) =~= slots0.update(
                                idx as int,
                                Some((url_v, ImageStatus::Loading, None)),
                            ));
                        }
                    },
                }
            },
        }
    }

    /// Flush a CSS image layer list (`background-image` or `mask-image`) from
    /// style to the element's image slots: the slots take the number of
    /// layers, and each layer is flushed in turn. Returns the image fetches
    /// to start, in order.
    pub fn flush_image_layers_from_style(&mut self, node_id: NodeId, kind: ImageLayerKind) -> (fetches: Vec<ImageFetch>)
        requires
            old(self).nodes.wf(),
            old(self).image_lists_wf(),
            live(old(self).nodes@, node_id),
        ensures
            final(self).nodes.wf(),
            final(self).image_lists_wf(),
            !has_image_layers(node_at(old(self).nodes@, node_id)) ==> final(self).nodes@ == old(self).nodes@
                && fetches.len() == 0 && final(self).pending_images@ == old(self).pending_images@,
            has_image_layers(node_at(old(self).nodes@, node_id)) ==> ({
                let n0 = node_at(old(self).nodes@, node_id);
                let r = layers_flushed(
                    start_state(old(self).pending_images@, n0, kind),
                    cache_views(old(self).image_cache@),
                    node_id,
                    kind,
                    layer_views(style_layers(n0, kind)),
                    0,
                );
                &&& final(self).nodes@ == old(self).nodes@.insert(slot_key(node_id@), final(self).nodes@[slot_key(node_id@)])
                &&& same_except_images(n0, node_at(final(self).nodes@, node_id), kind)
                &&& slot_views(image_slots(node_at(final(self).nodes@, node_id), kind)) == r.slots
                &&& pending_views(final(self).pending_images@) == r.pending
                &&& fetch_views(fetches@) == r.fetches
            }),
            final(self).incremental_layout == old(self).incremental_layout,
            final(self).pending_style_image_nodes@ == old(self).pending_style_image_nodes@,
            final(self).image_cache@ == old(self).image_cache@,
    {
        let ghost n0 = node_at(self.nodes@, node_id);
        let ghost nodes0 = self.nodes@;
        let node = self.nodes.index(node_id);
        let has_style = match &node.style {
            Some(sd) => sd.primary.is_some(),
            None => false,
        };
        if !has_style || node.element.is_none() {
            return Vec::new();
        }
        let len = match kind {
            ImageLayerKind::Background => node.background_layers.len(),
            ImageLayerKind::Mask => node.mask_layers.len(),
        };
        self.resize_slots(node_id, kind, len);
        proof {
            let sv = image_slots(node_at(self.nodes@, node_id), kind);
            assert(slot_views(sv).len() == sv.len());
            assert(resized(slot_views(image_slots(n0, kind)), len as nat).len() == len);
        }
        let mut fetches: Vec<ImageFetch> = Vec::new();
        let ghost cache = cache_views(self.image_cache@);
        let ghost layers = layer_views(style_layers(n0, kind));
        proof {
            assert(fetch_views(fetches@) =~= Seq::<(Seq<char>, NodeId, ImageType)>::empty());
            assert(style_layers(node_at(self.nodes@, node_id), kind) == style_layers(n0, kind));
        }
        let mut idx: usize = 0;
        while idx < len
            invariant
                0 <= idx <= len,
                len == style_layers(n0, kind).len(),
                layers == layer_views(style_layers(n0, kind)),
                self.nodes.wf(),
                live(self.nodes@, node_id),
                self.nodes@ == nodes0.insert(slot_key(node_id@), self.nodes@[slot_key(node_id@)]),
                same_except_images(n0, node_at(self.nodes@, node_id), kind),
                image_slots(node_at(self.nodes@, node_id), kind).len() == len,
                cache == cache_views(self.image_cache@),
                layers_flushed(
                    start_state(old(self).pending_images@, n0, kind),
                    cache,
                    node_id,
                    kind,
                    layers,
                    0,
                ) == layers_flushed(
                    ImageFlushState {
                        slots: slot_views(image_slots(node_at(self.nodes@, node_id), kind)),
                        pending: pending_views(self.pending_images@),
                        fetches: fetch_views(fetches@),
                    },
                    cache,
                    node_id,
                    kind,
                    layers,
                    idx as nat,
                ),
                self.incremental_layout == old(self).incremental_layout,
                self.pending_style_image_nodes@ == old(self).pending_style_image_nodes@,
                self.image_cache@ == old(self).image_cache@,
            decreases len - idx,
        {
            proof {
                assert(style_layers(node_at(self.nodes@, node_id), kind) == style_layers(n0, kind));
            }
            let ghost slots_before = slot_views(image_slots(node_at(self.nodes@, node_id), kind));
            self.flush_layer(node_id, kind, idx, &mut fetches);
            proof {
                let sv = image_slots(node_at(self.nodes@, node_id), kind);
                assert(slot_views(sv).len() == sv.len());
                assert(slots_before.len() == len);
            }
            idx = idx + 1;
        }
        proof {
            lemma_layers_flushed_unique(start_state(old(self).pending_images@, n0, kind), cache, node_id, kind, layers, 0);
        }
        fetches
    }
}

/// Resize image slots to `len`: cut, or filled up with no image.
fn resize_image_slots(v: &mut Vec<Option<ImageResource>>, len: usize)
    ensures
        slot_views(final(v)@) == resized(slot_views(old(v)@), len as nat),
{
    let ghost before = slot_views(v@);
    if v.len() >= len {
        v.truncate(len);
        proof {
            assert(slot_views(v@) =~= resized(before, len as nat));
        }
    } else {
        while v.len() < len
            invariant
                before.len() <= v.len() <= len,
                slot_views(v@) == before + Seq::new((v.len() - before.len()) as nat, |i: int| None::<ResourceView>),
            decreases len - v.len(),
        {
            let ghost prev = slot_views(v@);
            v.push(None);
            proof {
                assert(slot_views(v@) =~= prev.push(None::<ResourceView>));
                assert(prev.push(None::<ResourceView>) =~= before + Seq::new((v.len() - before.len()) as nat, |i: int| None::<ResourceView>));
            }
        }
        proof {
            assert(slot_views(v@) =~= resized(before, len as nat));
        }
    }
}

/// The image slots of every node, by their views: background, then mask.
pub open spec fn slot_map(nodes: Map<u64, Node>) -> Map<u64, (Seq<Option<ResourceView>>, Seq<Option<ResourceView>>)> {
    Map::new(
        |k: u64| nodes.contains_key(k),
        |k: u64|
            (
                slot_views(image_slots(nodes[k], ImageLayerKind::Background)),
                slot_views(image_slots(nodes[k], ImageLayerKind::Mask)),
            ),
    )
}

/// What flushing the image layers of several nodes reads and writes.
pub ghost struct ImagesState {
    pub slots: Map<u64, (Seq<Option<ResourceView>>, Seq<Option<ResourceView>>)>,
    pub pending: Seq<(Seq<char>, Seq<(NodeId, ImageType)>)>,
    pub fetches: Seq<(Seq<char>, NodeId, ImageType)>,
}

/// The slots of one kind of a node's entry in a slot map.
pub open spec fn kind_slots(
    e: (Seq<Option<ResourceView>>, Seq<Option<ResourceView>>),
    kind: ImageLayerKind,
) -> Seq<Option<ResourceView>> {
    match kind {
        ImageLayerKind::Background => e.0,
        ImageLayerKind::Mask => e.1,
    }
}

/// A node's entry in a slot map with the slots of one kind replaced.
pub open spec fn with_kind_slots(
    e: (Seq<Option<ResourceView>>, Seq<Option<ResourceView>>),
    kind: ImageLayerKind,
    v: Seq<Option<ResourceView>>,
) -> (Seq<Option<ResourceView>>, Seq<Option<ResourceView>>) {
    match kind {
        ImageLayerKind::Background => (v, e.1),
        ImageLayerKind::Mask => (e.0, v),
    }
}

/// Flushing one image layer list of the node at `id`, its layers and
/// whether it has them read from `base`.
pub open spec fn node_kind_flushed(
    base: Map<u64, Node>,
    cache: Seq<(Seq<char>, u64)>,
    st: ImagesState,
    id: NodeId,
    kind: ImageLayerKind,
) -> ImagesState {
    let k = slot_key(id@);
    if !base.contains_key(k) || !has_image_layers(base[k]) {
        st
    } else {
        let layers = style_layers(base[k], kind);
        let start = ImageFlushState {
            slots: resized(kind_slots(st.slots[k], kind), layers.len()),
            pending: st.pending,
            fetches: Seq::empty(),
        };
        let r = layers_flushed(start, cache, id, kind, layer_views(layers), 0);
        ImagesState {
            slots: st.slots.insert(k, with_kind_slots(st.slots[k], kind, r.slots)),
            pending: r.pending,
            fetches: st.fetches + r.fetches,
        }
    }
}

/// Flushing the background and then the mask layers of each live node of
/// `ids` in turn.
pub open spec fn pending_flushed(
    base: Map<u64, Node>,
    cache: Seq<(Seq<char>, u64)>,
    st: ImagesState,
    ids: Seq<u64>,
) -> ImagesState
    decreases ids.len(),
{
    if ids.len() == 0 {
        st
    } else {
        let id = NodeId { raw: ids[0] };
        let st1 = if base.contains_key(slot_key(ids[0])) {
            node_kind_flushed(
                base,
                cache,
                node_kind_flushed(base, cache, st, id, ImageLayerKind::Background),
                id,
                ImageLayerKind::Mask,
            )
        } else {
            st
        };
        pending_flushed(base, cache, st1, ids.drop_first())
    }
}

/// `x` placed in the increasing sequence `r`, unless it is there already.
pub open spec fn insert_unique(r: Seq<u64>, x: u64) -> Seq<u64>
    decreases r.len(),
{
    if r.len() == 0 {
        seq![x]
    } else if r.last() == x {
        r
    } else if r.last() < x {
        r.push(x)
    } else {
        insert_unique(r.drop_last(), x).push(r.last())
    }
}

/// The distinct values of `s`, in increasing order.
pub open spec fn sorted_unique(s: Seq<u64>) -> Seq<u64>
    decreases s.len(),
{
    if s.len() == 0 {
        s
    } else {
        insert_unique(sorted_unique(s.drop_last()), s.last())
    }
}

/// Whether a sequence is strictly increasing.
pub open spec fn increasing(s: Seq<u64>) -> bool {
    forall|i: int, j: int| 0 <= i < j < s.len() ==> s[i] < s[j]
}

proof fn lemma_insert_unique(r: Seq<u64>, x: u64)
    requires
        increasing(r),
    ensures
        increasing(insert_unique(r, x)),
        forall|y: u64| #[trigger] insert_unique(r, x).contains(y) <==> (r.contains(y) || y == x),
    decreases r.len(),
{
    if r.len() == 0 {
        assert(insert_unique(r, x) =~= seq![x]);
        assert forall|y: u64| #[trigger] insert_unique(r, x).contains(y) <==> (r.contains(y) || y == x) by {
            if y == x {
                assert(insert_unique(r, x)[0] == y);
            }
        }
    } else if r.last() == x {
        assert forall|y: u64| #[trigger] insert_unique(r, x).contains(y) <==> (r.contains(y) || y == x) by {
            if y == x {
                assert(r[r.len() - 1] == y);
            }
        }
    } else if r.last() < x {
        let t = r.push(x);
        assert forall|y: u64| #[trigger] t.contains(y) <==> (r.contains(y) || y == x) by {
            if t.contains(y) {
                let i = choose|i: int| 0 <= i < t.len() && t[i] == y;
                if i < r.len() {
                    assert(r[i] == y);
                }
            }
            if r.contains(y) {
                let i = choose|i: int| 0 <= i < r.len() && r[i] == y;
                assert(t[i] == y);
            }
            if y == x {
                assert(t[r.len() as int] == y);
            }
        }
    } else {
        let init = r.drop_last();
        let l = r.last();
        assert(increasing(init));
        lemma_insert_unique(init, x);
        let s0 = insert_unique(init, x);
        let t = s0.push(l);
        assert(r == init.push(l));
        assert forall|y: u64| #[trigger] t.contains(y) <==> (r.contains(y) || y == x) by {
            if t.contains(y) {
                let i = choose|i: int| 0 <= i < t.len() && t[i] == y;
                if i < s0.len() {
                    assert(s0.contains(y));
                    if init.contains(y) {
                        let w = choose|w: int| 0 <= w < init.len() && init[w] == y;
                        assert(r[w] == y);
                    }
                } else {
                    assert(r[r.len() - 1] == y);
                }
            }
            if r.contains(y) {
                let i = choose|i: int| 0 <= i < r.len() && r[i] == y;
                if i < init.len() {
                    assert(init[i] == y);
                    assert(s0.contains(y));
                    let w = choose|w: int| 0 <= w < s0.len() && s0[w] == y;
                    assert(t[w] == y);
                } else {
                    assert(t[s0.len() as int] == y);
                }
            }
            if y == x {
                assert(s0.contains(y));
                let w = choose|w: int| 0 <= w < s0.len() && s0[w] == y;
                assert(t[w] == y);
            }
        }
        assert forall|i: int, j: int| 0 <= i < j < t.len() implies t[i] < t[j] by {
            if j == t.len() - 1 {
                let y = s0[i];
                assert(s0.contains(y));
                if init.contains(y) {
                    let w = choose|w: int| 0 <= w < init.len() && init[w] == y;
                    assert(r[w] < r[r.len() - 1]);
                }
            }
        }
    }
}

/// The distinct values of `s` in increasing order are increasing, and hold
/// exactly the values of `s`.
pub proof fn lemma_sorted_unique(s: Seq<u64>)
    ensures
        increasing(sorted_unique(s)),
        forall|y: u64| #[trigger] sorted_unique(s).contains(y) <==> s.contains(y),
    decreases s.len(),
{
    if s.len() > 0 {
        let init = s.drop_last();
        lemma_sorted_unique(init);
        lemma_insert_unique(sorted_unique(init), s.last());
        assert(s == init.push(s.last()));
        assert forall|y: u64| #[trigger] sorted_unique(s).contains(y) <==> s.contains(y) by {
            if s.contains(y) {
                let i = choose|i: int| 0 <= i < s.len() && s[i] == y;
                if i < init.len() {
                    assert(init[i] == y);
                }
            }
            if init.contains(y) {
                let i = choose|i: int| 0 <= i < init.len() && init[i] == y;
                assert(s[i] == y);
            }
        }
    } else {
        assert(sorted_unique(s) == s);
    }
}

/// Two increasing sequences that hold the same values are equal.
proof fn lemma_increasing_same_values(a: Seq<u64>, b: Seq<u64>)
    requires
        increasing(a),
        increasing(b),
        forall|y: u64| a.contains(y) <==> b.contains(y),
    ensures
        a == b,
    decreases a.len() + b.len(),
{
    if a.len() == 0 || b.len() == 0 {
        if a.len() > 0 {
            assert(a.contains(a[0]));
        }
        if b.len() > 0 {
            assert(b.contains(b[0]));
        }
        assert(a =~= b);
    } else {
        let x = a.last();
        let y = b.last();
        assert(a.contains(x));
        assert(b.contains(y));
        let i = choose|i: int| 0 <= i < b.len() && b[i] == x;
        let j = choose|j: int| 0 <= j < a.len() && a[j] == y;
        assert(x <= y) by {
            if i < b.len() - 1 {
                assert(b[i] < b[b.len() - 1]);
            }
        }
        assert(y <= x) by {
            if j < a.len() - 1 {
                assert(a[j] < a[a.len() - 1]);
            }
        }
        let a0 = a.drop_last();
        let b0 = b.drop_last();
        assert forall|z: u64| a0.contains(z) <==> b0.contains(z) by {
            if a0.contains(z) {
                let k = choose|k: int| 0 <= k < a0.len() && a0[k] == z;
                assert(a[k] < a[a.len() - 1]);
                assert(a.contains(z));
                let m = choose|m: int| 0 <= m < b.len() && b[m] == z;
                if m == b.len() - 1 {
                    assert(false);
                }
                assert(b0[m] == z);
            }
            if b0.contains(z) {
                let k = choose|k: int| 0 <= k < b0.len() && b0[k] == z;
                assert(b[k] < b[b.len() - 1]);
                assert(b.contains(z));
                let m = choose|m: int| 0 <= m < a.len() && a[m] == z;
                if m == a.len() - 1 {
                    assert(false);
                }
                assert(a0[m] == z);
            }
        }
        lemma_increasing_same_values(a0, b0);
        assert(a =~= a0.push(x));
        assert(b =~= b0.push(y));
    }
}

/// The distinct values of two lists that hold the same values come out the
/// same: neither duplicates nor order make a difference.
pub proof fn lemma_sorted_unique_by_values(s1: Seq<u64>, s2: Seq<u64>)
    requires
        forall|y: u64| s1.contains(y) <==> s2.contains(y),
    ensures
        sorted_unique(s1) == sorted_unique(s2),
{
    lemma_sorted_unique(s1);
    lemma_sorted_unique(s2);
    assert forall|y: u64| sorted_unique(s1).contains(y) <==> sorted_unique(s2).contains(y) by {
        assert(sorted_unique(s1).contains(y) <==> s1.contains(y));
        assert(sorted_unique(s2).contains(y) <==> s2.contains(y));
    }
    lemma_increasing_same_values(sorted_unique(s1), sorted_unique(s2));
}

/// Flushing pending style images from two lists that hold the same node ids
/// flushes the same nodes in the same order: duplicates and the order of
/// the list make no difference.
pub proof fn lemma_pending_ids_by_set(p1: Seq<NodeId>, p2: Seq<NodeId>)
    requires
        forall|id: NodeId| p1.contains(id) <==> p2.contains(id),
    ensures
        sorted_unique(p1.map_values(|id: NodeId| id@)) == sorted_unique(p2.map_values(|id: NodeId| id@)),
{
    let m1 = p1.map_values(|id: NodeId| id@);
    let m2 = p2.map_values(|id: NodeId| id@);
    assert forall|y: u64| m1.contains(y) <==> m2.contains(y) by {
        if m1.contains(y) {
            let i = choose|i: int| 0 <= i < m1.len() && m1[i] == y;
            assert(p1.contains(p1[i]));
            let j = choose|j: int| 0 <= j < p2.len() && p2[j] == p1[i];
            assert(m2[j] == y);
        }
        if m2.contains(y) {
            let i = choose|i: int| 0 <= i < m2.len() && m2[i] == y;
            assert(p2.contains(p2[i]));
            let j = choose|j: int| 0 <= j < p1.len() && p1[j] == p2[i];
            assert(m1[j] == y);
        }
    }
    lemma_sorted_unique_by_values(m1, m2);
}

/// The position at which `x` goes into the increasing `out`, and whether it
/// is there already.
fn unique_position(out: &Vec<u64>, x: u64) -> (r: (usize, bool))
    ensures
        r.0 <= out.len(),
        r.1 ==> insert_unique(out@, x) == out@,
        !r.1 ==> insert_unique(out@, x) == out@.take(r.0 as int).push(x) + out@.skip(r.0 as int),
{
    let mut p = out.len();
    assert(out@.take(p as int) =~= out@);
    assert(out@.skip(p as int) =~= Seq::<u64>::empty());
    while p > 0
        invariant
            p <= out.len(),
            insert_unique(out@, x) == insert_unique(out@.take(p as int), x) + out@.skip(p as int),
        ensures
            p <= out.len(),
            insert_unique(out@, x) == insert_unique(out@.take(p as int), x) + out@.skip(p as int),
            p == 0 || out@[p - 1] <= x,
        decreases p,
    {
        if out[p - 1] <= x {
            break;
        }
        proof {
            let t = out@.take(p as int);
            assert(t.drop_last() =~= out@.take(p - 1));
            assert(t.last() == out@[p - 1]);
            assert(insert_unique(t, x) == insert_unique(out@.take(p - 1), x).push(out@[p - 1]));
            assert(out@.skip(p - 1) =~= seq![out@[p - 1]] + out@.skip(p as int));
            assert(insert_unique(out@.take(p - 1), x).push(out@[p - 1]) + out@.skip(p as int)
                =~= insert_unique(out@.take(p - 1), x) + out@.skip(p - 1));
        }
        p = p - 1;
    }
    if p > 0 && out[p - 1] == x {
        proof {
            let t = out@.take(p as int);
            assert(t.last() == x);
            assert(insert_unique(t, x) == t);
            assert(t + out@.skip(p as int) =~= out@);
        }
        return (p, true);
    }
    proof {
        if p == 0 {
            assert(out@.take(0) =~= Seq::<u64>::empty());
            assert(insert_unique(out@.take(0), x) == seq![x]);
            assert(seq![x] =~= out@.take(0).push(x));
        } else {
            assert(out@.take(p as int).last() == out@[p - 1]);
            assert(out@.take(p as int).len() > 0);
        }
    }
    (p, false)
}

/// The distinct raw ids of `ids`, in increasing order.
fn sorted_unique_ids(ids: &Vec<NodeId>) -> (out: Vec<u64>)
    ensures
        out@ == sorted_unique(ids@.map_values(|id: NodeId| id@)),
{
    let ghost raw = ids@.map_values(|id: NodeId| id@);
    let mut out: Vec<u64> = Vec::new();
    let mut i: usize = 0;
    while i < ids.len()
        invariant
            0 <= i <= ids.len(),
            raw == ids@.map_values(|id: NodeId| id@),
            out@ == sorted_unique(raw.take(i as int)),
        decreases ids.len() - i,
    {
        let x = ids[i].as_u64();
        proof {
            assert(raw.take(i + 1).drop_last() =~= raw.take(i as int));
            assert(raw.take(i + 1).last() == x);
        }
        let (p, present) = unique_position(&out, x);
        if !present {
            let ghost before = out@;
            out.insert(p, x);
            proof {
                assert(out@ =~= before.take(p as int).push(x) + before.skip(p as int));
            }
        }
        i = i + 1;
    }
    proof {
        assert(raw.take(ids.len() as int) =~= raw);
    }
    out
}

/// Whether `b` is `a` with at most its image slots changed.
pub open spec fn same_except_image_slots(a: Node, b: Node) -> bool {
    b == Node { background_images: b.background_images, mask_images: b.mask_images, ..a }
}

/// Whether `nodes` holds the nodes of `base`, changed at most in their image
/// slots.
pub open spec fn image_statics(base: Map<u64, Node>, nodes: Map<u64, Node>) -> bool {
    &&& base.dom() == nodes.dom()
    &&& forall|k: u64| #[trigger] base.contains_key(k) ==> same_except_image_slots(base[k], nodes[k])
}

/// The image state of a document with the fetches collected so far.
pub open spec fn images_state(doc: BaseDocument, fetches: Seq<ImageFetch>) -> ImagesState {
    ImagesState {
        slots: slot_map(doc.nodes@),
        pending: pending_views(doc.pending_images@),
        fetches: fetch_views(fetches),
    }
}

impl BaseDocument {
    /// Flush one image layer list of the node at `node_id`, adding the fetches
    /// it starts to `fetches`.
    fn flush_kind_into(
        &mut self,
        node_id: NodeId,
        kind: ImageLayerKind,
        fetches: &mut Vec<ImageFetch>,
        Ghost(base): Ghost<Map<u64, Node>>,
    )
        requires
            old(self).nodes.wf(),
            old(self).image_lists_wf(),
            live(base, node_id),
            image_statics(base, old(self).nodes@),
        ensures
            final(self).nodes.wf(),
            final(self).image_lists_wf(),
            image_statics(base, final(self).nodes@),
            images_state(*final(self), final(fetches)@) == node_kind_flushed(
                base,
                cache_views(old(self).image_cache@),
                images_state(*old(self), old(fetches)@),
                node_id,
                kind,
            ),
            final(self).incremental_layout == old(self).incremental_layout,
            final(self).pending_style_image_nodes@ == old(self).pending_style_image_nodes@,
            final(self).image_cache@ == old(self).image_cache@,
    {
        let ghost k = slot_key(node_id@);
        let ghost nodes0 = self.nodes@;
        let ghost f0 = fetches@;
        let ghost st0 = images_state(*self, fetches@);
        proof {
            assert(same_except_image_slots(base[k], nodes0[k]));
        }
        let mut f = self.flush_image_layers_from_style(node_id, kind);
        let ghost fv = fetch_views(f@);
        fetches.append(&mut f);
        proof {
            assert(fetch_views(fetches@) =~= fetch_views(f0) + fv);
            let n0 = nodes0[k];
            if has_image_layers(n0) {
                let n1 = self.nodes@[k];
                assert(same_except_images(n0, n1, kind));
                assert(style_layers(n0, kind) == style_layers(base[k], kind));
                assert(kind_slots(st0.slots[k], kind) == slot_views(image_slots(n0, kind)));
                assert(slot_map(self.nodes@) =~= st0.slots.insert(
                    k,
                    with_kind_slots(st0.slots[k], kind, slot_views(image_slots(n1, kind))),
                ));
                assert(self.nodes@.dom() =~= nodes0.dom());
                assert forall|j: u64| #[trigger] base.contains_key(j) implies same_except_image_slots(
                    base[j],
                    self.nodes@[j],
                ) by {
                    if j == k {
                        assert(same_except_image_slots(base[k], nodes0[k]));
                    }
                }
            } else {
                assert(fetch_views(fetches@) =~= fetch_views(f0));
            }
        }
    }

    /// Flush the image layers of the nodes whose style changed during the
    /// last style traversal: each live one once, by increasing id, its
    /// background layers and then its mask layers. The pending list is
    /// emptied; returns the image fetches to start, in order.
    pub fn flush_pending_style_images(&mut self) -> (fetches: Vec<ImageFetch>)
        requires
            old(self).nodes.wf(),
            old(self).image_lists_wf(),
        ensures
            final(self).nodes.wf(),
            final(self).image_lists_wf(),
            final(self).pending_style_image_nodes@.len() == 0,
            image_statics(old(self).nodes@, final(self).nodes@),
            images_state(*final(self), fetches@) == pending_flushed(
                old(self).nodes@,
                cache_views(old(self).image_cache@),
                images_state(*old(self), Seq::empty()),
                sorted_unique(old(self).pending_style_image_nodes@.map_values(|id: NodeId| id@)),
            ),
            final(self).incremental_layout == old(self).incremental_layout,
            final(self).image_cache@ == old(self).image_cache@,
    {
        let ghost base = self.nodes@;
        let ghost cache = cache_views(self.image_cache@);
        let mut pending: Vec<NodeId> = Vec::new();
        std::mem::swap(&mut pending, &mut self.pending_style_image_nodes);
        let ids = sorted_unique_ids(&pending);
        let mut fetches: Vec<ImageFetch> = Vec::new();
        let ghost init = images_state(*self, fetches@);
        proof {
            assert(fetch_views(fetches@) =~= Seq::<(Seq<char>, NodeId, ImageType)>::empty());
            assert(fetch_views(Seq::<ImageFetch>::empty()) =~= Seq::<(Seq<char>, NodeId, ImageType)>::empty());
            assert(ids@.skip(0) =~= ids@);
            assert forall|k: u64| #[trigger] base.contains_key(k) implies same_except_image_slots(base[k], self.nodes@[k]) by {}
        }
        let mut i: usize = 0;
        while i < ids.len()
            invariant
                0 <= i <= ids.len(),
                self.nodes.wf(),
                self.image_lists_wf(),
                image_statics(base, self.nodes@),
                cache == cache_views(self.image_cache@),
                self.pending_style_image_nodes@.len() == 0,
                pending_flushed(base, cache, init, ids@) == pending_flushed(
                    base,
                    cache,
                    images_state(*self, fetches@),
                    ids@.skip(i as int),
                ),
                self.incremental_layout == old(self).incremental_layout,
                self.image_cache@ == old(self).image_cache@,
            decreases ids.len() - i,
        {
            let node_id = NodeId::from_u64(ids[i]);
            proof {
                assert(ids@.skip(i as int)[0] == ids@[i as int]);
                assert(ids@.skip(i as int).drop_first() =~= ids@.skip(i + 1));
            }
            if self.nodes.contains_key(node_id) {
                self.flush_kind_into(node_id, ImageLayerKind::Background, &mut fetches, Ghost(base));
                self.flush_kind_into(node_id, ImageLayerKind::Mask, &mut fetches, Ghost(base));
            }
            i = i + 1;
        }
        proof {
            assert(ids@.skip(ids.len() as int) =~= Seq::<u64>::empty());
        }
        fetches
    }
}

} // verus!
