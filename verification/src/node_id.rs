use vstd::prelude::*;

verus! {

/// The id of a node in the document: the 64-bit form of its storage key,
/// the slot index in the low 32 bits and the slot's version in the high 32.
#[derive(Clone, Copy, PartialEq, Eq, Structural, Debug, Hash)]
pub struct NodeId {
    pub raw: u64,
}

impl View for NodeId {
    type V = u64;

    open spec fn view(&self) -> u64 {
        self.raw
    }
}

impl NodeId {
    pub fn from_u64(raw: u64) -> (id: NodeId)
        ensures
            id@ == raw,
    {
        NodeId { raw }
    }

    pub fn as_u64(&self) -> (raw: u64)
        ensures
            raw == self@,
    {
        self.raw
    }
}

/// The id with the given 64-bit form.
pub open spec fn id_of(raw: u64) -> NodeId {
    NodeId { raw }
}

/// The slot index of an id: its low 32 bits.
pub open spec fn slot_index(raw: u64) -> nat {
    (raw % 0x1_0000_0000) as nat
}

/// The slot version of an id: its high 32 bits.
pub open spec fn slot_version(raw: u64) -> nat {
    (raw / 0x1_0000_0000) as nat
}

/// The id that a slot index and version make.
pub open spec fn make_id(index: nat, version: nat) -> nat {
    version * 0x1_0000_0000 + index
}

/// An id made of an index and a version takes them apart again.
pub proof fn lemma_make_id(index: nat, version: nat)
    requires
        index < 0x1_0000_0000,
        version < 0x1_0000_0000,
    ensures
        make_id(index, version) < 0x1_0000_0000_0000_0000,
        slot_index(make_id(index, version) as u64) == index,
        slot_version(make_id(index, version) as u64) == version,
{
    let id = make_id(index, version);
    assert(id < 0x1_0000_0000_0000_0000) by (nonlinear_arith)
        requires
            id == version * 0x1_0000_0000 + index,
            index < 0x1_0000_0000,
            version < 0x1_0000_0000,
    ;
    assert(id % 0x1_0000_0000 == index && id / 0x1_0000_0000 == version) by (nonlinear_arith)
        requires
            id == version * 0x1_0000_0000 + index,
            index < 0x1_0000_0000,
    ;
}

} // verus!
