//! Paint order: hoisted children of stacking contexts, and the keys by
//! which children are painted.
use vstd::prelude::*;

use crate::node::{Float, Node, Position};
use crate::node_id::NodeId;
use crate::sort::{
    key_le, keyed_sorted, lemma_stable_sorted, lemma_stable_sorted_map, map_payload, stable_sort,
    stable_sorted,
};

verus! {

/// A child with a non-zero `z-index` (or a `z-index: auto` positioned box),
/// hoisted up to its containing stacking context for painting.
pub struct HoistedPaintChild {
    pub node_id: NodeId,
    pub z_index: i32,
    /// The boxes whose layout offsets (location less scroll offset) add up to
    /// this child's position relative to the stacking context, innermost first.
    pub offsets: Vec<NodeId>,
}

/// What a hoisted child is: its node, its `z-index`, and the boxes whose
/// offsets make its position.
pub type HoistedView = (NodeId, i32, Seq<NodeId>);

impl View for HoistedPaintChild {
    type V = HoistedView;

    open spec fn view(&self) -> HoistedView {
        (self.node_id, self.z_index, self.offsets@)
    }
}

/// The views of a list of hoisted children.
pub open spec fn hoisted_views(s: Seq<HoistedPaintChild>) -> Seq<HoistedView> {
    s.map_values(|c: HoistedPaintChild| c@)
}

/// The hoisted children of a stacking context.
pub struct HoistedPaintChildren {
    pub children: Vec<HoistedPaintChild>,
    /// The number of hoisted children with negative `z_index`.
    pub negative_z_count: u32,
}

/// Hoisted children keyed by their `z-index` for sorting.
pub open spec fn z_keyed(s: Seq<HoistedView>) -> Seq<((i32, i32), HoistedView)> {
    s.map_values(|c: HoistedView| ((c.1, 0i32), c))
}

/// Hoisted children stably sorted by `z-index`.
pub open spec fn sorted_by_z(s: Seq<HoistedView>) -> Seq<HoistedView> {
    stable_sorted(z_keyed(s)).map_values(|e: ((i32, i32), HoistedView)| e.1)
}

/// The view of a hoisted child, as a function.
pub open spec fn child_view() -> spec_fn(HoistedPaintChild) -> HoistedView {
    |c: HoistedPaintChild| c@
}

/// Whether the first `count` hoisted children are those with a negative
/// `z-index`.
pub open spec fn negatives_first(s: Seq<HoistedView>, count: nat) -> bool {
    &&& count <= s.len()
    &&& forall|i: int| 0 <= i < count ==> (#[trigger] s[i]).1 < 0
    &&& forall|i: int| count <= i < s.len() ==> (#[trigger] s[i]).1 >= 0
}

/// The number of hoisted children before the first one with a
/// non-negative `z-index`.
pub open spec fn negative_prefix(s: Seq<HoistedView>) -> nat
    decreases s.len(),
{
    if s.len() == 0 || s[0].1 >= 0 {
        0
    } else {
        1 + negative_prefix(s.drop_first())
    }
}

proof fn lemma_negative_prefix(s: Seq<HoistedView>, count: nat)
    requires
        count <= s.len(),
        forall|i: int| 0 <= i < count ==> (#[trigger] s[i]).1 < 0,
        count == s.len() || s[count as int].1 >= 0,
    ensures
        negative_prefix(s) == count,
    decreases s.len(),
{
    if count > 0 {
        assert(s[0].1 < 0);
        let t = s.drop_first();
        assert forall|i: int| 0 <= i < count - 1 implies (#[trigger] t[i]).1 < 0 by {
            assert(t[i] == s[i + 1]);
        }
        if count < s.len() {
            assert(t[count - 1] == s[count as int]);
        }
        lemma_negative_prefix(t, (count - 1) as nat);
    }
}

/// Whether hoisted children are in order of `z-index`.
pub open spec fn z_ordered(s: Seq<HoistedView>) -> bool {
    forall|i: int, j: int| 0 <= i < j < s.len() ==> (#[trigger] s[i]).1 <= (#[trigger] s[j]).1
}

proof fn lemma_negative_prefix_facts(s: Seq<HoistedView>)
    ensures
        negative_prefix(s) <= s.len(),
        forall|i: int| 0 <= i < negative_prefix(s) ==> (#[trigger] s[i]).1 < 0,
        negative_prefix(s) == s.len() || s[negative_prefix(s) as int].1 >= 0,
    decreases s.len(),
{
    if s.len() > 0 && s[0].1 < 0 {
        let t = s.drop_first();
        lemma_negative_prefix_facts(t);
        assert forall|i: int| 0 <= i < negative_prefix(s) implies (#[trigger] s[i]).1 < 0 by {
            if i > 0 {
                assert(s[i] == t[i - 1]);
            }
        }
        if negative_prefix(s) < s.len() {
            assert(s[negative_prefix(s) as int] == t[negative_prefix(t) as int]);
        }
    }
}

/// Stably sorting by `z-index` orders the children by `z-index`, with the
/// negative ones first and counted by `negative_prefix`.
pub proof fn lemma_sorted_by_z(s: Seq<HoistedView>)
    ensures
        z_ordered(sorted_by_z(s)),
        negatives_first(sorted_by_z(s), negative_prefix(sorted_by_z(s))),
{
    let keyed = z_keyed(s);
    lemma_stable_sorted(keyed);
    let sorted = stable_sorted(keyed);
    let out = sorted_by_z(s);
    assert forall|i: int| 0 <= i < sorted.len() implies (#[trigger] sorted[i]).0 == (sorted[i].1.1, 0i32) by {
        sorted.to_multiset_ensures();
        keyed.to_multiset_ensures();
        assert(sorted.contains(sorted[i]));
        assert(sorted.to_multiset().count(sorted[i]) > 0);
        assert(keyed.contains(sorted[i]));
    }
    assert forall|i: int, j: int| 0 <= i < j < out.len() implies (#[trigger] out[i]).1 <= (#[trigger] out[j]).1 by {
        assert(key_le(sorted[i].0, sorted[j].0));
    }
    lemma_negative_prefix_facts(out);
}

/// Hoisted children with `id` added to the boxes whose offsets they carry.
pub open spec fn offset_all(s: Seq<HoistedView>, id: NodeId) -> Seq<HoistedView> {
    s.map_values(|c: HoistedView| (c.0, c.1, c.2.push(id)))
}

/// Add `id` to the boxes whose offsets each hoisted child carries.
pub fn offset_hoisted(children: &mut Vec<HoistedPaintChild>, id: NodeId)
    ensures
        hoisted_views(final(children)@) == offset_all(hoisted_views(old(children)@), id),
{
    let ghost before = hoisted_views(children@);
    let mut i: usize = 0;
    while i < children.len()
        invariant
            0 <= i <= children.len(),
            children.len() == before.len(),
            forall|j: int| 0 <= j < i ==> (#[trigger] children@[j])@ == offset_all(before, id)[j],
            forall|j: int| i <= j < children.len() ==> (#[trigger] children@[j])@ == before[j],
        decreases children.len() - i,
    {
        children[i].offsets.push(id);
        i = i + 1;
    }
    proof {
        assert(hoisted_views(children@) =~= offset_all(before, id));
    }
}

impl HoistedPaintChildren {
    pub fn new() -> (r: Self)
        ensures
            r.children@.len() == 0,
            r.negative_z_count == 0,
    {
        HoistedPaintChildren { children: Vec::new(), negative_z_count: 0 }
    }

    pub fn reset(&mut self)
        ensures
            final(self).children@.len() == 0,
            final(self).negative_z_count == 0,
    {
        self.children.clear();
        self.negative_z_count = 0;
    }

    /// Sort the children stably by `z-index`, and count those below zero:
    /// they come first.
    pub fn sort(&mut self)
        ensures
            hoisted_views(final(self).children@) == sorted_by_z(hoisted_views(old(self).children@)),
            negatives_first(
                hoisted_views(final(self).children@),
                negative_prefix(hoisted_views(final(self).children@)),
            ),
            final(self).negative_z_count == negative_prefix(hoisted_views(final(self).children@)) as u32,
    {
        let ghost before = hoisted_views(self.children@);
        let mut keyed: Vec<((i32, i32), HoistedPaintChild)> = Vec::new();
        let n = self.children.len();
        let mut i: usize = 0;
        assert(hoisted_views(self.children@) =~= before.skip(0));
        while self.children.len() > 0
            invariant
                i + self.children.len() == n,
                n == before.len(),
                keyed.len() == i,
                hoisted_views(self.children@) == before.skip(i as int),
                map_payload(keyed@, child_view()) == z_keyed(before.take(i as int)),
                forall|w: int| 0 <= w < i ==> (#[trigger] keyed@[w]).0 == (keyed@[w].1.z_index, 0i32),
            decreases self.children.len(),
        {
            let ghost rest = self.children@;
            let ghost keyed_before = keyed@;
            let c = self.children.remove(0);
            proof {
                assert(hoisted_views(rest)[0] == c@);
                assert(hoisted_views(self.children@) =~= hoisted_views(rest).drop_first());
            }
            keyed.push(((c.z_index, 0), c));
            proof {
                assert(before[i as int] == c@);
                let m = map_payload(keyed@, child_view());
                let z = z_keyed(before.take(i + 1));
                assert(m.len() == z.len());
                assert forall|w: int| 0 <= w < m.len() implies m[w] == z[w] by {
                    if w < i {
                        assert(keyed@[w] == keyed_before[w]);
                        assert(map_payload(keyed_before, child_view())[w] == z_keyed(before.take(i as int))[w]);
                    } else {
                        assert(keyed@[w] == ((c.z_index, 0i32), c));
                        assert(child_view()(c) == c@);
                    }
                }
                assert(m =~= z);
            }
            i = i + 1;
        }
        proof {
            assert(before.take(n as int) =~= before);
            lemma_stable_sorted_map(keyed@, child_view());
            lemma_stable_sorted(keyed@);
        }
        let ghost keyed_all = keyed@;
        let sorted = stable_sort(keyed);
        let ghost target = sorted_by_z(before);
        proof {
            assert(target =~= map_payload(sorted@, child_view()).map_values(
                |e: ((i32, i32), HoistedView)| e.1,
            ));
        }
        let mut out: Vec<HoistedPaintChild> = Vec::new();
        let mut rest = sorted;
        let ghost all = sorted@;
        let mut j: usize = 0;
        assert(all.skip(0) =~= all);
        while rest.len() > 0
            invariant
                j + rest.len() == all.len(),
                all.len() == n,
                all.len() == target.len(),
                rest@ == all.skip(j as int),
                out.len() == j,
                forall|k: int| 0 <= k < j ==> (#[trigger] out@[k])@ == target[k],
                forall|k: int| 0 <= k < all.len() ==> (#[trigger] target[k]) == all[k].1@,
            decreases rest.len(),
        {
            let e = rest.remove(0);
            proof {
                assert(all[j as int] == e);
                assert(rest@ =~= all.skip(j + 1));
            }
            out.push(e.1);
            j = j + 1;
        }
        proof {
            assert(hoisted_views(out@) =~= target);
            assert(keyed_sorted(all));
            assert forall|k: int| 0 <= k < all.len() implies (#[trigger] all[k]).0 == (all[k].1.z_index, 0i32) by {
                all.to_multiset_ensures();
                keyed_all.to_multiset_ensures();
                assert(all.contains(all[k]));
                assert(all.to_multiset().count(all[k]) > 0);
                assert(keyed_all.to_multiset().count(all[k]) > 0);
                assert(keyed_all.contains(all[k]));
            }
        }
        let mut count: usize = 0;
        while count < out.len() && out[count].z_index < 0
            invariant
                count <= out.len(),
                forall|k: int| 0 <= k < count ==> (#[trigger] out@[k]).z_index < 0,
            decreases out.len() - count,
        {
            count = count + 1;
        }
        proof {
            let v = hoisted_views(out@);
            assert forall|k: int| count <= k < v.len() implies (#[trigger] v[k]).1 >= 0 by {
                assert(out@[count as int].z_index >= 0);
                if k > count {
                    assert(key_le(all[count as int].0, all[k].0));
                    assert(all[count as int].0 == (all[count as int].1.z_index, 0i32));
                    assert(all[k].0 == (all[k].1.z_index, 0i32));
                }
            }
        }
        proof {
            lemma_negative_prefix(hoisted_views(out@), count as nat);
        }
        self.children = out;
        self.negative_z_count = #[verifier::truncate] (count as u32);
    }

    pub fn neg_z_range(&self) -> (r: core::ops::Range<usize>)
        ensures
            r.start == 0,
            r.end == self.negative_z_count,
    {
        0..(self.negative_z_count as usize)
    }

    pub fn pos_z_range(&self) -> (r: core::ops::Range<usize>)
        ensures
            r.start == self.negative_z_count,
            r.end == self.children.len(),
    {
        (self.negative_z_count as usize)..self.children.len()
    }

    /// The hoisted children with a negative `z-index` (when they come first).
    pub fn neg_z_hoisted_children(&self) -> (r: &[HoistedPaintChild])
        requires
            self.negative_z_count <= self.children.len(),
        ensures
            r@ == self.children@.subrange(0, self.negative_z_count as int),
    {
        let range = self.neg_z_range();
        &self.children.as_slice()[range]
    }

    /// The hoisted children with a non-negative `z-index` (when the negative
    /// ones come first).
    pub fn pos_z_hoisted_children(&self) -> (r: &[HoistedPaintChild])
        requires
            self.negative_z_count <= self.children.len(),
        ensures
            r@ == self.children@.subrange(self.negative_z_count as int, self.children.len() as int),
    {
        let range = self.pos_z_range();
        &self.children.as_slice()[range]
    }
}

/// The paint level of a `position`: in-flow boxes paint at 0, positioned
/// boxes with `z-index: auto` above in-flow content and floats, at 2.
pub open spec fn position_order(pos: Position) -> i32 {
    match pos {
        Position::Static => 0,
        _ => 2,
    }
}

/// The paint level that a `float` adds: 1 for a float.
pub open spec fn float_order(f: Float) -> i32 {
    match f {
        Float::NoFloat => 0,
        _ => 1,
    }
}

/// The paint sort key of a child: (paint level, order-modified position).
/// A child without style sorts at (0, 0). Every positioned box with
/// `z-index: auto` shares one paint level, 2, above in-flow content (0) and
/// floats (1), so that the stable sort keeps positioned boxes in tree order
/// among themselves. In a flex or grid container, an in-flow child keeps its
/// `order`; a relatively or sticky positioned one paints at level 2 with its
/// `order`; an absolutely or fixed positioned one is no flex or grid item and
/// paints at level 2 in tree order.
pub open spec fn paint_order(n: Node, is_flex_or_grid: bool) -> (i32, i32) {
    match n.style {
        Some(sd) => match sd.primary {
            Some(style) => if is_flex_or_grid {
                match style.position {
                    Position::Static => (0, style.order),
                    Position::Relative | Position::Sticky => (2, style.order),
                    Position::Absolute | Position::Fixed => (2, 0),
                }
            } else if style.position == Position::Static {
                (float_order(style.float), 0)
            } else {
                (position_order(style.position), 0)
            },
            None => (0, 0),
        },
        None => (0, 0),
    }
}

pub fn position_to_order(pos: Position) -> (order: i32)
    ensures
        order == position_order(pos),
{
    match pos {
        Position::Static => 0,
        Position::Relative | Position::Sticky | Position::Absolute | Position::Fixed => 2,
    }
}

pub fn float_to_order(pos: Float) -> (order: i32)
    ensures
        order == float_order(pos),
{
    match pos {
        Float::NoFloat => 0,
        _ => 1,
    }
}

/// The paint sort key of a node: see [`paint_order`].
pub fn node_to_paint_order(node: &Node, is_flex_or_grid: bool) -> (key: (i32, i32))
    ensures
        key == paint_order(*node, is_flex_or_grid),
{
    let style = match &node.style {
        Some(sd) => match sd.primary {
            Some(style) => style,
            None => return (0, 0),
        },
        None => return (0, 0),
    };
    let position = style.position;
    if is_flex_or_grid {
        match position {
            Position::Static => (0, style.order),
            Position::Relative | Position::Sticky => (2, style.order),
            Position::Absolute | Position::Fixed => (2, 0),
        }
    } else {
        match position {
            Position::Static => (float_to_order(style.float), 0),
            _ => (position_to_order(position), 0),
        }
    }
}

} // verus!
