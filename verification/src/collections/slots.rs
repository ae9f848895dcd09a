//! The slot map that hands out the node ids of an ordered DAG.
//!
//! A slot map key is carried as its 64-bit FFI value: the slot's version in
//! the high 32 bits and the slot index in the low 32 bits. Keys of occupied
//! slots always have an odd version.
use vstd::prelude::*;
use slotmap::{DefaultKey, Key, KeyData, SlotMap};

verus! {

/// The slot map of an ordered DAG: each key leads to a position in the
/// DAG's node list. The slot map itself is opaque; what it holds is named by
/// [`slot_contents`].
#[verifier::external_body]
pub struct NodeSlots {
    slots: SlotMap<DefaultKey, usize>,
}

/// What a slot map holds: the FFI value of the key of each occupied slot,
/// mapped to the value in that slot.
pub uninterp spec fn slot_contents(slots: NodeSlots) -> Map<u64, usize>;

/// The version half of a key's FFI value is odd, as it is for every key
/// of an occupied slot.
pub open spec fn odd_version(key: u64) -> bool {
    (key / 0x1_0000_0000) % 2 == 1
}

/// The slot index half of a key's FFI value is below `u32::MAX`, the index
/// that the null key holds: no occupied slot has that index.
pub open spec fn real_index(key: u64) -> bool {
    key % 0x1_0000_0000 < 0xffff_ffff
}

/// There are finitely many keys in the slot map, each with an odd version
/// and a slot index below that of the null key.
pub open spec fn slots_wf(contents: Map<u64, usize>) -> bool {
    &&& contents.dom().finite()
    &&& forall|k: u64| #[trigger] contents.dom().contains(k) ==> odd_version(k) && real_index(k)
}

/// The contents of a slot map with no occupied slot.
pub open spec fn no_slots() -> Map<u64, usize> {
    Map::empty()
}

/// `SlotMap::with_key`: a slot map with nothing in it.
#[verifier::external_body]
pub(crate) fn slots_new() -> (fresh: NodeSlots)
    ensures
        slot_contents(fresh) == no_slots(),
{
    NodeSlots { slots: SlotMap::with_key() }
}

/// `SlotMap::insert`: stores `value` under a key that no occupied slot had,
/// and returns that key's FFI value (an odd version, as `KeyData::as_ffi`
/// lays it out). The slot is a vacant one, whose index is below the slot
/// count, or a new one at index `slots.len()`, which is below `u32::MAX`:
/// so the index is never the null key's. It panics only when there is no
/// vacant slot and the slot count (the occupied slots and the reserved
/// first slot) has reached `u32::MAX`, which the precondition excludes.
#[verifier::external_body]
pub(crate) fn slots_insert(slots: &mut NodeSlots, value: usize) -> (key: u64)
    requires
        slot_contents(*old(slots)).dom().finite(),
        slot_contents(*old(slots)).dom().len() + 1 < u32::MAX,
    ensures
        !slot_contents(*old(slots)).dom().contains(key),
        slot_contents(*final(slots)) == slot_contents(*old(slots)).insert(key, value),
        odd_version(key),
        real_index(key),
{
    slots.slots.insert(value).data().as_ffi()
}

/// `SlotMap::get`, with the key rebuilt by `KeyData::from_ffi`: the value
/// stored under the key, if its slot is occupied.
#[verifier::external_body]
pub(crate) fn slots_get(slots: &NodeSlots, key: u64) -> (r: Option<usize>)
    requires
        odd_version(key),
    ensures
        r is Some <==> slot_contents(*slots).dom().contains(key),
        r matches Some(v) ==> v == slot_contents(*slots)[key],
{
    slots.slots.get(DefaultKey::from(KeyData::from_ffi(key))).copied()
}

/// `SlotMap::contains_key`, with the key rebuilt by `KeyData::from_ffi`.
#[verifier::external_body]
pub(crate) fn slots_contains_key(slots: &NodeSlots, key: u64) -> (r: bool)
    requires
        odd_version(key),
    ensures
        r == slot_contents(*slots).dom().contains(key),
{
    slots.slots.contains_key(DefaultKey::from(KeyData::from_ffi(key)))
}

/// `SlotMap::len`: the number of occupied slots.
#[verifier::external_body]
pub(crate) fn slots_len(slots: &NodeSlots) -> (r: usize)
    ensures
        r == slot_contents(*slots).dom().len(),
{
    slots.slots.len()
}

/// `SlotMap::is_empty`: whether no slot is occupied.
#[verifier::external_body]
pub(crate) fn slots_is_empty(slots: &NodeSlots) -> (r: bool)
    ensures
        r == (slot_contents(*slots).dom().len() == 0),
{
    slots.slots.is_empty()
}

} // verus!
