use slotmap::Key;
use vstd::prelude::*;

use crate::node::Node;
use crate::node_id::{slot_index, slot_version};

verus! {

/// The slot map in which the nodes are stored, keyed by `slotmap::DefaultKey`.
#[verifier::external_body]
pub struct NodeSlots {
    map: slotmap::SlotMap<slotmap::DefaultKey, Node>,
}

/// What a slot map holds: each occupied slot's key, in its 64-bit form
/// (`KeyData::as_ffi`), with the node stored there.
pub uninterp spec fn slot_contents(m: NodeSlots) -> Map<u64, Node>;

/// The version of each slot that has held a value, by index: odd while the
/// slot is occupied, even once its value is removed.
pub uninterp spec fn slot_versions(m: NodeSlots) -> Map<nat, nat>;

/// The versions of a slot map with no slots.
pub open spec fn no_versions() -> Map<nat, nat> {
    Map::empty()
}

/// `v | 1`: the version a free slot takes when a value is stored in it.
pub open spec fn set_low_bit(v: nat) -> nat {
    if v % 2 == 0 {
        v + 1
    } else {
        v
    }
}

/// The contents of a slot map with nothing in it.
pub open spec fn no_contents() -> Map<u64, Node> {
    Map::empty()
}

/// The key that `KeyData::from_ffi` makes of a 64-bit value: the version is
/// forced odd, which sets bit 32.
pub open spec fn slot_key(raw: u64) -> u64 {
    if slot_version(raw) % 2 == 1 {
        raw
    } else {
        (raw + 0x1_0000_0000) as u64
    }
}

/// A key that `SlotMap::insert_with_key` can hand out: an odd version, and an
/// index past the sentinel slot and below `u32::MAX`.
pub open spec fn issuable_key(k: u64) -> bool {
    &&& slot_version(k) % 2 == 1
    &&& 1 <= slot_index(k) < 0xffff_ffff
}

/// `SlotMap::with_key`: a new slot map holds nothing.
#[verifier::external_body]
pub(crate) fn slots_new() -> (fresh: NodeSlots)
    ensures
        slot_contents(fresh) == no_contents(),
        slot_versions(fresh) == no_versions(),
{
    NodeSlots { map: slotmap::SlotMap::with_key() }
}

/// `SlotMap::len`: the number of occupied slots.
#[verifier::external_body]
pub(crate) fn slots_len(m: &NodeSlots) -> (n: usize)
    ensures
        n == slot_contents(*m).len(),
{
    m.map.len()
}

/// `SlotMap::contains_key`, the key rebuilt from its 64-bit form by `KeyData::from_ffi`.
#[verifier::external_body]
pub(crate) fn slots_contains(m: &NodeSlots, raw: u64) -> (b: bool)
    ensures
        b == slot_contents(*m).contains_key(slot_key(raw)),
{
    m.map.contains_key(slotmap::DefaultKey::from(slotmap::KeyData::from_ffi(raw)))
}

/// `SlotMap::get`, the key rebuilt from its 64-bit form by `KeyData::from_ffi`.
#[verifier::external_body]
pub(crate) fn slots_get(m: &NodeSlots, raw: u64) -> (r: Option<&Node>)
    ensures
        r is Some == slot_contents(*m).contains_key(slot_key(raw)),
        r matches Some(node) ==> *node == slot_contents(*m)[slot_key(raw)],
{
    m.map.get(slotmap::DefaultKey::from(slotmap::KeyData::from_ffi(raw)))
}

/// `SlotMap::get_mut`, the key rebuilt from its 64-bit form by `KeyData::from_ffi`.
#[verifier::external_body]
pub(crate) fn slots_get_mut(m: &mut NodeSlots, raw: u64) -> (r: Option<&mut Node>)
    ensures
        r is Some == slot_contents(*old(m)).contains_key(slot_key(raw)),
        r matches Some(node) ==> *node == slot_contents(*old(m))[slot_key(raw)],
        r matches Some(node) ==> slot_contents(*final(m)) == slot_contents(*old(m)).insert(slot_key(raw), *final(node)),
        r is None ==> slot_contents(*final(m)) == slot_contents(*old(m)),
        slot_versions(*final(m)) == slot_versions(*old(m)),
{
    m.map.get_mut(slotmap::DefaultKey::from(slotmap::KeyData::from_ffi(raw)))
}

/// `SlotMap`'s `IndexMut`, the key rebuilt from its 64-bit form by
/// `KeyData::from_ffi`. It panics on a key that is not occupied.
#[verifier::external_body]
pub(crate) fn slots_index_mut(m: &mut NodeSlots, raw: u64) -> (node: &mut Node)
    requires
        slot_contents(*old(m)).contains_key(slot_key(raw)),
    ensures
        *node == slot_contents(*old(m))[slot_key(raw)],
        slot_contents(*final(m)) == slot_contents(*old(m)).insert(slot_key(raw), *final(node)),
        slot_versions(*final(m)) == slot_versions(*old(m)),
{
    &mut m.map[slotmap::DefaultKey::from(slotmap::KeyData::from_ffi(raw))]
}

/// `SlotMap::insert_with_key`: `f` gets the new key, in its 64-bit form, and
/// makes the value stored there. The key comes from a free slot, whose even
/// version it makes odd (`version | 1`), or from a new slot, at version 1, when
/// none is free; the source panics when the map is full, which a length below
/// `u32::MAX - 1` rules out.
#[verifier::external_body]
pub(crate) fn slots_insert_with_key<F: FnOnce(u64) -> Node>(m: &mut NodeSlots, f: F) -> (key: u64)
    requires
        slot_contents(*old(m)).len() < 0xffff_fffe,
        forall|k: u64| f.requires((k,)),
    ensures
        issuable_key(key),
        forall|k: u64| #[trigger] slot_contents(*old(m)).contains_key(k) ==> slot_index(k) != slot_index(key),
        f.ensures((key,), slot_contents(*final(m))[key]),
        slot_contents(*final(m)) == slot_contents(*old(m)).insert(key, slot_contents(*final(m))[key]),
        slot_versions(*old(m)).contains_key(slot_index(key)) ==> slot_version(key) == set_low_bit(
            slot_versions(*old(m))[slot_index(key)],
        ),
        !slot_versions(*old(m)).contains_key(slot_index(key)) ==> slot_version(key) == 1,
        slot_versions(*final(m)) == slot_versions(*old(m)).insert(slot_index(key), slot_version(key)),
{
    m.map.insert_with_key(|k| f(k.data().as_ffi())).data().as_ffi()
}

/// `SlotMap::remove`, the key rebuilt from its 64-bit form by `KeyData::from_ffi`:
/// removing a value adds one to its slot's version, wrapping at `u32::MAX`.
#[verifier::external_body]
pub(crate) fn slots_remove(m: &mut NodeSlots, raw: u64) -> (r: Option<Node>)
    ensures
        r is Some == slot_contents(*old(m)).contains_key(slot_key(raw)),
        r matches Some(node) ==> node == slot_contents(*old(m))[slot_key(raw)],
        slot_contents(*final(m)) == slot_contents(*old(m)).remove(slot_key(raw)),
        r is Some ==> slot_versions(*final(m)) == slot_versions(*old(m)).insert(
            slot_index(raw),
            (slot_versions(*old(m))[slot_index(raw)] + 1) % 0x1_0000_0000,
        ),
        r is None ==> slot_versions(*final(m)) == slot_versions(*old(m)),
{
    m.map.remove(slotmap::DefaultKey::from(slotmap::KeyData::from_ffi(raw)))
}

/// `SlotMap::iter`, each key in its 64-bit form: it walks the slots by
/// increasing index and yields the occupied ones.
#[verifier::external_body]
pub(crate) fn slots_keys(m: &NodeSlots) -> (keys: Vec<u64>)
    ensures
        forall|i: int, j: int| 0 <= i < j < keys.len() ==> slot_index(keys[i]) < slot_index(keys[j]),
        forall|k: u64| #[trigger] slot_contents(*m).contains_key(k) <==> keys@.contains(k),
{
    let mut keys = Vec::new();
    for (k, _) in m.map.iter() {
        keys.push(k.data().as_ffi());
    }
    keys
}

} // verus!
