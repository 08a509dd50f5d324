//! Versioned storage for the nodes of the DOM tree.
use vstd::prelude::*;

use crate::node::Node;
use crate::node_id::{id_of, lemma_make_id, make_id, slot_index, slot_version, NodeId};
use crate::slot_store::{
    issuable_key, set_low_bit, slot_contents, slot_key, slot_versions, slots_contains, slots_get, slots_get_mut,
    slots_index_mut, slots_insert_with_key, slots_keys, slots_len, slots_new, slots_remove,
    NodeSlots,
};

verus! {

/// The versioned map in which the nodes of the DOM tree are stored, backed by
/// a slot map.
///
/// Nodes are addressed by [`NodeId`], which carries the slot's version in
/// addition to its index: when a node is dropped and its slot reused, ids
/// referring to the dropped node no longer resolve instead of aliasing the
/// new occupant.
pub struct NodeTree {
    map: NodeSlots,
    /// The current version of each slot, by index (0 while the slot is empty).
    /// Lets an id whose version bits were lost be recovered: see
    /// [`NodeTree::from_opaque`].
    versions: Vec<u32>,
}

/// Whether the live ids of a node map are well formed: each has an odd
/// version and an index that no other live id has.
pub open spec fn live_ids_well_formed(nodes: Map<u64, Node>) -> bool {
    &&& nodes.dom().finite()
    &&& forall|k: u64| #[trigger] nodes.contains_key(k) ==> issuable_key(k)
    &&& forall|k1: u64, k2: u64|
        #[trigger] nodes.contains_key(k1) && #[trigger] nodes.contains_key(k2) && slot_index(k1)
            == slot_index(k2) ==> k1 == k2
}

/// The live id whose slot index is `index`, if there is one.
pub open spec fn occupant_of(nodes: Map<u64, Node>, index: nat) -> Option<u64> {
    if exists|k: u64| #[trigger] nodes.contains_key(k) && slot_index(k) == index {
        Some(choose|k: u64| #[trigger] nodes.contains_key(k) && slot_index(k) == index)
    } else {
        None
    }
}

/// The id that an opaque handle recovers: the raw value itself when its
/// version bits survived, else the id of the slot's current occupant.
pub open spec fn opaque_id(nodes: Map<u64, Node>, raw: nat) -> Option<NodeId> {
    if raw >= 0x1_0000_0000 {
        Some(id_of(raw as u64))
    } else {
        match occupant_of(nodes, raw) {
            Some(k) => Some(id_of(k)),
            None => None,
        }
    }
}

impl View for NodeTree {
    type V = Map<u64, Node>;

    closed spec fn view(&self) -> Map<u64, Node> {
        slot_contents(self.map)
    }
}

impl NodeTree {
    /// The tree's invariant: the live ids are issued keys, and `versions`
    /// records, for each slot index, the version of its live node or 0.
    pub closed spec fn wf(self) -> bool {
        let c = slot_contents(self.map);
        &&& c.dom().finite()
        &&& self.versions.len() <= 0xffff_ffff
        &&& forall|k: u64| #[trigger]
            c.contains_key(k) ==> {
                &&& issuable_key(k)
                &&& slot_index(k) < self.versions.len()
                &&& self.versions@[slot_index(k) as int] == slot_version(k)
            }
        &&& forall|i: int|
            0 <= i < self.versions.len() && #[trigger] self.versions@[i] != 0 ==> c.contains_key(
                make_id(i as nat, self.versions@[i] as nat) as u64,
            )
        &&& self.slot_history_wf()
    }

    /// The slot map's own record of versions agrees with what it holds: a
    /// live node's slot is at the node's version, and a slot at an odd
    /// version holds a node.
    closed spec fn slot_history_wf(self) -> bool {
        let c = slot_contents(self.map);
        let sv = slot_versions(self.map);
        &&& forall|k: u64| #[trigger]
            c.contains_key(k) ==> sv.contains_key(slot_index(k)) && sv[slot_index(k)] == slot_version(k)
        &&& forall|i: nat| #[trigger]
            sv.contains_key(i) ==> i < 0x1_0000_0000 && sv[i] < 0x1_0000_0000 && (sv[i] % 2 == 1 ==> c.contains_key(
                make_id(i, sv[i]) as u64,
            ))
    }

    /// Whether `id` names a node that has been removed: it is a key the tree
    /// can hand out, and its slot has moved on to a later version since.
    pub closed spec fn retired(self, id: NodeId) -> bool {
        let sv = slot_versions(self.map);
        &&& issuable_key(id@)
        &&& sv.contains_key(slot_index(id@))
        &&& slot_version(id@) < sv[slot_index(id@)]
    }

    /// An id whose node was removed never resolves again, whatever now
    /// occupies its slot.
    pub proof fn lemma_retired_never_resolves(&self, id: NodeId)
        requires
            self.wf(),
            self.retired(id),
        ensures
            !self@.contains_key(slot_key(id@)),
            !self@.contains_key(id@),
    {
    }

    proof fn lemma_inv_facts(&self)
        requires
            self.wf(),
        ensures
            live_ids_well_formed(self@),
            forall|k: u64| #[trigger]
                self@.contains_key(k) ==> k == make_id(slot_index(k), slot_version(k)),
    {
        assert forall|k: u64| #[trigger] self@.contains_key(k) implies k == make_id(
            slot_index(k),
            slot_version(k),
        ) by {
            assert(k == (k / 0x1_0000_0000) * 0x1_0000_0000 + k % 0x1_0000_0000);
        }
    }

    /// The live ids are well formed: each has an odd version and a slot index
    /// of its own, so one slot holds at most one live node.
    pub proof fn lemma_live_ids(&self)
        requires
            self.wf(),
        ensures
            live_ids_well_formed(self@),
            forall|k: u64| #[trigger] self@.contains_key(k) ==> slot_key(k) == k,
    {
        self.lemma_inv_facts();
    }

    pub fn new() -> (tree: Self)
        ensures
            tree.wf(),
            tree@ == Map::<u64, Node>::empty(),
            forall|x: NodeId| !tree.retired(x),
    {
        NodeTree { map: slots_new(), versions: Vec::new() }
    }

    /// The number of live nodes in the map.
    pub fn len(&self) -> (n: usize)
        ensures
            n == self@.len(),
    {
        slots_len(&self.map)
    }

    pub fn is_empty(&self) -> (b: bool)
        ensures
            b == (self@.len() == 0),
    {
        slots_len(&self.map) == 0
    }

    /// Whether `id` resolves to a live node.
    pub fn contains_key(&self, id: NodeId) -> (b: bool)
        ensures
            b == self@.contains_key(slot_key(id@)),
    {
        slots_contains(&self.map, id.as_u64())
    }

    /// Get a reference to the node with the given id, if it is still live.
    pub fn get(&self, id: NodeId) -> (r: Option<&Node>)
        ensures
            r is Some == self@.contains_key(slot_key(id@)),
            r matches Some(node) ==> *node == self@[slot_key(id@)],
    {
        slots_get(&self.map, id.as_u64())
    }

    /// Recover a [`NodeId`] from the raw value that the style engine hands
    /// back in an opaque node handle.
    ///
    /// The handle wraps a `usize`, so on 32-bit targets only the slot index
    /// survives the round trip and the version bits come back as zero. In that
    /// case the id of the slot's current occupant is returned; an id with its
    /// version intact is returned as is. `None` if the slot is empty.
    pub fn from_opaque(&self, raw: usize) -> (r: Option<NodeId>)
        requires
            self.wf(),
        ensures
            r == opaque_id(self@, raw as nat),
    {
        proof {
            self.lemma_inv_facts();
        }
        let raw = raw as u64;
        assert((raw >> 32u64 != 0) == (raw >= 0x1_0000_0000)) by (bit_vector);
        if raw >> 32u64 != 0 {
            return Some(NodeId::from_u64(raw));
        }
        let index = raw as u32;
        assert(raw < 0x1_0000_0000 ==> index == raw) by (bit_vector)
            requires index == raw as u32;
        if (index as usize) >= self.versions.len() {
            assert forall|k: u64| #[trigger] self@.contains_key(k) implies slot_index(k) != raw by {}
            return None;
        }
        let version = self.versions[index as usize];
        if version != 0 {
            let id = raw | ((version as u64) << 32u64);
            assert(raw < 0x1_0000_0000 ==> id == raw + (version as u64) * 0x1_0000_0000) by (bit_vector)
                requires id == raw | ((version as u64) << 32u64);
            assert(slot_index(id) == raw && slot_version(id) == version) by (nonlinear_arith)
                requires id == raw + version * 0x1_0000_0000, raw < 0x1_0000_0000, version < 0x1_0000_0000;
            assert(make_id(index as nat, version as nat) == id);
            assert(self@.contains_key(id));
            proof {
                let o = choose|k: u64| #[trigger] self@.contains_key(k) && slot_index(k) == raw;
                assert(o == id);
            }
            Some(NodeId::from_u64(id))
        } else {
            assert forall|k: u64| #[trigger] self@.contains_key(k) implies slot_index(k) != raw by {}
            None
        }
    }

    /// A live node's id survives the trip through an opaque handle, whole or
    /// cut to its low 32 bits.
    pub proof fn lemma_opaque_round_trip(&self, k: u64)
        requires
            self.wf(),
            self@.contains_key(k),
        ensures
            opaque_id(self@, k as nat) == Some(id_of(k)),
            opaque_id(self@, slot_index(k)) == Some(id_of(k)),
    {
        self.lemma_inv_facts();
        assert(slot_version(k) >= 1);
        assert(k >= 0x1_0000_0000);
        assert(self@.contains_key(k) && slot_index(k) == slot_index(k));
        let o = choose|j: u64| #[trigger] self@.contains_key(j) && slot_index(j) == slot_index(k);
        assert(o == k);
    }

    /// Get a mutable reference to the node with the given id, if it is still live.
    pub fn get_mut(&mut self, id: NodeId) -> (r: Option<&mut Node>)
        requires
            old(self).wf(),
        ensures
            final(self).wf(),
            r is Some == old(self)@.contains_key(slot_key(id@)),
            r matches Some(node) ==> *node == old(self)@[slot_key(id@)],
            r matches Some(node) ==> final(self)@ == old(self)@.insert(slot_key(id@), *final(node)),
            r is None ==> final(self)@ == old(self)@,
            forall|x: NodeId| #[trigger] final(self).retired(x) == old(self).retired(x),
    {
        slots_get_mut(&mut self.map, id.as_u64())
    }

    /// The node with the given id; the id must be live.
    pub fn index(&self, id: NodeId) -> (node: &Node)
        requires
            self@.contains_key(slot_key(id@)),
        ensures
            *node == self@[slot_key(id@)],
    {
        slots_get(&self.map, id.as_u64()).unwrap()
    }

    /// A mutable reference to the node with the given id; the id must be live.
    pub fn index_mut(&mut self, id: NodeId) -> (node: &mut Node)
        requires
            old(self).wf(),
            old(self)@.contains_key(slot_key(id@)),
        ensures
            final(self).wf(),
            *node == old(self)@[slot_key(id@)],
            final(self)@ == old(self)@.insert(slot_key(id@), *final(node)),
            forall|x: NodeId| #[trigger] final(self).retired(x) == old(self).retired(x),
    {
        slots_index_mut(&mut self.map, id.as_u64())
    }

    /// Insert a node constructed with knowledge of its own id.
    pub fn insert_with_key<F: FnOnce(NodeId) -> Node>(&mut self, f: F) -> (id: NodeId)
        requires
            old(self).wf(),
            old(self)@.len() < 0xffff_fffe,
            forall|k: NodeId| f.requires((k,)),
        ensures
            final(self).wf(),
            !old(self)@.contains_key(id@),
            issuable_key(id@),
            f.ensures((id,), final(self)@[id@]),
            final(self)@ == old(self)@.insert(id@, final(self)@[id@]),
            final(self)@.len() == old(self)@.len() + 1,
            slot_key(id@) == id@,
            forall|x: NodeId| #[trigger] old(self).retired(x) ==> final(self).retired(x),
    {
        proof {
            self.lemma_inv_facts();
        }
        let ghost old_map = slot_contents(self.map);
        let ghost old_versions = self.versions@;
        let make = move |raw: u64| -> (node: Node)
            requires
                f.requires((id_of(raw),)),
            ensures
                f.ensures((id_of(raw),), node),
        {
            f(NodeId::from_u64(raw))
        };
        let raw = slots_insert_with_key(&mut self.map, make);
        let id = NodeId::from_u64(raw);
        proof {
            assert(slot_contents(self.map).len() == old_map.len() + 1);
        }
        let index32 = raw as u32;
        let version32 = (raw >> 32u64) as u32;
        assert(index32 == raw % 0x1_0000_0000) by (bit_vector)
            requires index32 == raw as u32;
        assert(version32 == raw / 0x1_0000_0000) by (bit_vector)
            requires version32 == (raw >> 32u64) as u32;
        let index = index32 as usize;
        if self.versions.len() <= index {
            self.versions.resize(index + 1, 0);
        }
        self.versions.set(index, version32);
        proof {
            assert(raw == make_id(slot_index(raw), slot_version(raw))) by {
                assert(raw == (raw / 0x1_0000_0000) * 0x1_0000_0000 + raw % 0x1_0000_0000);
            }
            let c = slot_contents(self.map);
            assert forall|k: u64| #[trigger] c.contains_key(k) implies {
                &&& issuable_key(k)
                &&& slot_index(k) < self.versions.len()
                &&& self.versions@[slot_index(k) as int] == slot_version(k)
            } by {
                if k != raw {
                    assert(old_map.contains_key(k));
                    assert(slot_index(k) != slot_index(raw));
                    assert(old_versions[slot_index(k) as int] == slot_version(k));
                }
            }
            assert forall|i: int|
                0 <= i < self.versions.len() && #[trigger] self.versions@[i] != 0 implies c.contains_key(
                make_id(i as nat, self.versions@[i] as nat) as u64,
            ) by {
                if i != index {
                    assert(i < old_versions.len());
                    assert(old_versions[i] == self.versions@[i]);
                    assert(old_map.contains_key(make_id(i as nat, old_versions[i] as nat) as u64));
                }
            }
        }
        id
    }

    /// Remove the node with the given id, returning it if it was still live.
    pub fn remove(&mut self, id: NodeId) -> (r: Option<Node>)
        requires
            old(self).wf(),
        ensures
            final(self).wf(),
            r is Some == old(self)@.contains_key(slot_key(id@)),
            r matches Some(node) ==> node == old(self)@[slot_key(id@)],
            final(self)@ == old(self)@.remove(slot_key(id@)),
            !final(self)@.contains_key(slot_key(id@)),
            r is Some ==> final(self)@.len() == old(self)@.len() - 1,
            r is None ==> final(self)@.len() == old(self)@.len(),
            r is Some && slot_version(slot_key(id@)) < 0xffff_ffff ==> final(self).retired(
                id_of(slot_key(id@)),
            ),
            forall|x: NodeId| #[trigger]
                old(self).retired(x) && !(r is Some && slot_index(x@) == slot_index(id@)
                    && slot_version(slot_key(id@)) == 0xffff_ffff) ==> final(self).retired(x),
    {
        proof {
            self.lemma_inv_facts();
        }
        let ghost old_map = slot_contents(self.map);
        let ghost old_versions = self.versions@;
        let ghost old_map_slots = self.map;
        let raw = id.as_u64();
        let removed = slots_remove(&mut self.map, raw);
        match removed {
            None => {
                assert(slot_contents(self.map) =~= old_map);
                assert(self.versions@ == old_versions);
                None
            },
            Some(node) => {
                let index32 = raw as u32;
                assert(index32 == raw % 0x1_0000_0000) by (bit_vector)
                    requires index32 == raw as u32;
                let index = index32 as usize;
                let ghost key = slot_key(raw);
                assert(slot_index(key) == slot_index(raw));
                if index < self.versions.len() {
                    self.versions.set(index, 0);
                }
                proof {
                    let c = slot_contents(self.map);
                    assert forall|k: u64| #[trigger] c.contains_key(k) implies {
                        &&& issuable_key(k)
                        &&& slot_index(k) < self.versions.len()
                        &&& self.versions@[slot_index(k) as int] == slot_version(k)
                    } by {
                        assert(old_map.contains_key(k));
                        assert(slot_index(k) != slot_index(key));
                    }
                    assert forall|i: int|
                        0 <= i < self.versions.len() && #[trigger] self.versions@[i] != 0 implies c.contains_key(
                        make_id(i as nat, self.versions@[i] as nat) as u64,
                    ) by {
                        let k = make_id(i as nat, old_versions[i] as nat) as u64;
                        lemma_make_id(i as nat, old_versions[i] as nat);
                        assert(old_map.contains_key(k));
                        assert(old_versions[slot_index(k) as int] == slot_version(k));
                        assert(slot_index(k) == i);
                    }
                    let sv = slot_versions(self.map);
                    let osv = slot_versions(old_map_slots);
                    assert(old_map.contains_key(key));
                    assert(osv[slot_index(key)] == slot_version(key));
                    assert forall|k: u64| #[trigger] c.contains_key(k) implies sv.contains_key(slot_index(k))
                        && sv[slot_index(k)] == slot_version(k) by {
                        assert(old_map.contains_key(k));
                        assert(slot_index(k) != slot_index(key));
                    }
                    assert forall|i: nat| #[trigger] sv.contains_key(i) implies i < 0x1_0000_0000 && sv[i] < 0x1_0000_0000 && (
                    sv[i] % 2 == 1 ==> c.contains_key(make_id(i, sv[i]) as u64)) by {
                        if i != slot_index(key) {
                            assert(osv.contains_key(i));
                            if sv[i] % 2 == 1 {
                                lemma_make_id(i, sv[i]);
                                assert(old_map.contains_key(make_id(i, sv[i]) as u64));
                            }
                        }
                    }
                }
                Some(node)
            },
        }
    }

    /// The ids of all live nodes, by increasing slot index.
    pub fn ids(&self) -> (ids: Vec<NodeId>)
        requires
            self.wf(),
        ensures
            forall|i: int, j: int| 0 <= i < j < ids.len() ==> slot_index(ids[i]@) < slot_index(ids[j]@),
            forall|k: u64| #[trigger] self@.contains_key(k) <==> exists|i: int| 0 <= i < ids.len() && ids[i]@ == k,
            forall|i: int| 0 <= i < ids.len() ==> #[trigger] self@.contains_key(ids[i]@),
            ids.len() == self@.len(),
    {
        let keys = slots_keys(&self.map);
        let mut ids: Vec<NodeId> = Vec::new();
        let mut i: usize = 0;
        while i < keys.len()
            invariant
                0 <= i <= keys.len(),
                ids.len() == i,
                forall|j: int| 0 <= j < i ==> #[trigger] ids[j]@ == keys[j],
            decreases keys.len() - i,
        {
            ids.push(NodeId::from_u64(keys[i]));
            i = i + 1;
        }
        proof {
            assert forall|k: u64| #[trigger] self@.contains_key(k) <==> exists|i: int| 0 <= i < ids.len() && ids[i]@ == k by {
                if self@.contains_key(k) {
                    assert(keys@.contains(k));
                    let j = keys@.index_of(k);
                    assert(ids[j]@ == k);
                }
                if exists|i: int| 0 <= i < ids.len() && ids[i]@ == k {
                    let j = choose|i: int| 0 <= i < ids.len() && ids[i]@ == k;
                    assert(keys@[j] == k);
                    assert(keys@.contains(k));
                }
            }
            let n = keys@.len();
            assert(keys@.no_duplicates()) by {
                assert forall|a: int, b: int| 0 <= a < n && 0 <= b < n && a != b implies keys@[a] != keys@[b] by {
                    if a < b {
                        assert(slot_index(keys@[a]) < slot_index(keys@[b]));
                    } else {
                        assert(slot_index(keys@[b]) < slot_index(keys@[a]));
                    }
                }
            }
            assert(keys@.to_set() =~= self@.dom());
            keys@.unique_seq_to_set();
            assert forall|i: int| 0 <= i < ids.len() implies #[trigger] self@.contains_key(ids[i]@) by {
                assert(keys@.contains(keys@[i]));
            }
        }
        ids
    }

    /// All live `(NodeId, &Node)` pairs, by increasing slot index.
    pub fn iter(&self) -> (pairs: Vec<(NodeId, &Node)>)
        requires
            self.wf(),
        ensures
            pairs.len() == self@.len(),
            forall|i: int, j: int| 0 <= i < j < pairs.len() ==> slot_index(pairs[i].0@) < slot_index(pairs[j].0@),
            forall|i: int| 0 <= i < pairs.len() ==> #[trigger] self@.contains_key(pairs[i].0@) && *pairs[i].1
                == self@[pairs[i].0@],
            forall|k: u64| #[trigger] self@.contains_key(k) ==> exists|i: int| 0 <= i < pairs.len() && pairs[i].0@ == k,
    {
        proof {
            self.lemma_inv_facts();
        }
        let ids = self.ids();
        let mut pairs: Vec<(NodeId, &Node)> = Vec::new();
        let mut i: usize = 0;
        while i < ids.len()
            invariant
                0 <= i <= ids.len(),
                forall|k: u64| #[trigger] self@.contains_key(k) ==> slot_key(k) == k,
                forall|j: int| 0 <= j < ids.len() ==> #[trigger] self@.contains_key(ids[j]@),
                pairs.len() == i,
                forall|j: int| 0 <= j < i ==> (#[trigger] pairs[j]).0 == ids[j] && *pairs[j].1 == self@[ids[j]@],
            decreases ids.len() - i,
        {
            let id = ids[i];
            proof {
                assert(self@.contains_key(ids[i as int]@));
                assert(slot_key(id@) == id@);
            }
            let node = self.index(id);
            let ghost before = pairs@;
            pairs.push((id, node));
            proof {
                assert forall|j: int| 0 <= j < i + 1 implies (#[trigger] pairs[j]).0 == ids[j] && *pairs[j].1 == self@[ids[j]@] by {
                    if j < i {
                        assert(pairs[j] == before[j]);
                    }
                }
            }
            i = i + 1;
        }
        proof {
            assert forall|k: u64| #[trigger] self@.contains_key(k) implies exists|i: int| 0 <= i < pairs.len() && pairs[i].0@ == k by {
                let j = choose|j: int| 0 <= j < ids.len() && ids[j]@ == k;
                assert(pairs[j].0 == ids[j]);
            }
            assert forall|a: int, b: int| 0 <= a < b < pairs.len() implies slot_index(pairs[a].0@) < slot_index(pairs[b].0@) by {
                assert(pairs[a].0 == ids[a]);
                assert(pairs[b].0 == ids[b]);
            }
        }
        pairs
    }
}

} // verus!
