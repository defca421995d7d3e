use vstd::prelude::*;
use crate::prelude::INDEX_POINTER_SIZE;

verus! {

/// Identifies a container (a table or an index) of the buffer pool.
pub type ContainerId = u16;
/// Identifies a page within its container; allocated in increasing order.
pub type PageId = u32;
/// Identifies a slot within a page.
pub type SlotId = u16;

/// The kind of structure a container holds.
#[derive(Debug, Clone, Copy, PartialEq, Eq, Structural)]
pub enum StateType {
    HashTable,
    Tree,
    BaseTable,
    MatView,
}

/// The access a caller asks for.
#[derive(Debug, Clone, Copy, PartialEq, Eq, Hash, Structural)]
pub enum Permissions {
    ReadOnly,
    ReadWrite,
}

/// An opaque, freshly drawn transaction identifier.
#[derive(Debug, Clone, Copy, PartialEq, Eq, Hash, Structural)]
pub struct TransactionId {
    pub id: u64,
}

/// Relies on `rand::random::<u64>`: any 64-bit value may come back.
#[verifier::external_body]
fn random_id() -> u64 {
    rand::random::<u64>()
}

impl TransactionId {
    /// A new transaction id, drawn from 64 random bits.
    pub fn new() -> (r: TransactionId) {
        TransactionId { id: random_id() }
    }
}

/// Addresses a container, a page of it, or a slot of such a page.
#[derive(Debug, Clone, Copy, PartialEq, Eq, Hash, Structural)]
pub struct ValueId {
    pub container_id: ContainerId,
    pub page_id: Option<PageId>,
    pub slot_id: Option<SlotId>,
}

/// The little-endian bytes of a 16-bit number.
pub open spec fn u16_bytes(x: u16) -> Seq<u8> {
    seq![(x % 256) as u8, (x / 256) as u8]
}

/// The little-endian bytes of a 32-bit number.
pub open spec fn u32_bytes(x: u32) -> Seq<u8> {
    seq![
        (x % 256) as u8,
        ((x / 256) % 256) as u8,
        ((x / 65536) % 256) as u8,
        (x / 16777216) as u8,
    ]
}

/// The number that two little-endian bytes stand for.
pub open spec fn u16_of(b0: u8, b1: u8) -> u16 {
    (b0 + b1 * 256) as u16
}

/// The number that four little-endian bytes stand for.
pub open spec fn u32_of(b0: u8, b1: u8, b2: u8, b3: u8) -> u32 {
    (b0 + b1 * 256 + b2 * 65536 + b3 * 16777216) as u32
}

/// The ten-byte encoding of a value id: the container (2 bytes), a presence
/// flag and the page (1 + 4 bytes), a presence flag and the slot (1 + 2 bytes).
pub open spec fn fixed_bytes_of(v: ValueId) -> Seq<u8> {
    let p: u32 = match v.page_id { Some(p) => p, None => 0 };
    let s: u16 = match v.slot_id { Some(s) => s, None => 0 };
    u16_bytes(v.container_id)
        + seq![if v.page_id.is_some() { 1u8 } else { 0u8 }]
        + u32_bytes(p)
        + seq![if v.slot_id.is_some() { 1u8 } else { 0u8 }]
        + u16_bytes(s)
}

/// The value id that ten bytes decode to; a nonzero flag marks presence.
pub open spec fn value_id_of(b: Seq<u8>) -> ValueId
    recommends b.len() == 10,
{
    ValueId {
        container_id: u16_of(b[0], b[1]),
        page_id: if b[2] != 0 { Some(u32_of(b[3], b[4], b[5], b[6])) } else { None },
        slot_id: if b[7] != 0 { Some(u16_of(b[8], b[9])) } else { None },
    }
}

/// Decoding the fixed encoding of a value id gives the value id back.
pub proof fn lemma_fixed_bytes_round_trip(v: ValueId)
    ensures
        fixed_bytes_of(v).len() == 10,
        value_id_of(fixed_bytes_of(v)) == v,
{
    let b = fixed_bytes_of(v);
    let c = v.container_id;
    let p: u32 = match v.page_id { Some(p) => p, None => 0 };
    let s: u16 = match v.slot_id { Some(s) => s, None => 0 };
    assert(b.len() == 10);
    assert(u16_of(b[0], b[1]) == c);
    assert(u32_of(b[3], b[4], b[5], b[6]) == p);
    assert(u16_of(b[8], b[9]) == s);
}

impl ValueId {
    /// The value id of slot `s` of page `p` of container `c`.
    pub open spec fn new_slot_spec(c: ContainerId, p: PageId, s: SlotId) -> ValueId {
        ValueId { container_id: c, page_id: Some(p), slot_id: Some(s) }
    }

    /// A value id that names a page.
    pub fn new_page(c_id: ContainerId, p_id: PageId) -> (r: ValueId)
        ensures
            r == (ValueId { container_id: c_id, page_id: Some(p_id), slot_id: None }),
    {
        ValueId { container_id: c_id, page_id: Some(p_id), slot_id: None }
    }

    /// A value id that names a slot of a page.
    pub fn new_slot(c_id: ContainerId, p_id: PageId, slot: SlotId) -> (r: ValueId)
        ensures
            r == (ValueId { container_id: c_id, page_id: Some(p_id), slot_id: Some(slot) }),
    {
        ValueId { container_id: c_id, page_id: Some(p_id), slot_id: Some(slot) }
    }

    /// The same address with the slot left out.
    pub fn page_only(&self) -> (r: ValueId)
        ensures
            r == (ValueId { slot_id: None, ..*self }),
    {
        ValueId { container_id: self.container_id, page_id: self.page_id, slot_id: None }
    }

    /// The fixed ten-byte encoding, used as an index pointer.
    pub fn to_fixed_bytes(&self) -> (r: [u8; INDEX_POINTER_SIZE])
        ensures
            r@ == fixed_bytes_of(*self),
    {
        let c = self.container_id;
        let (pf, p): (u8, u32) = match self.page_id {
            Some(p) => (1, p),
            None => (0, 0),
        };
        let (sf, s): (u8, u16) = match self.slot_id {
            Some(s) => (1, s),
            None => (0, 0),
        };
        let r = [
            (c % 256) as u8,
            (c / 256) as u8,
            pf,
            (p % 256) as u8,
            ((p / 256) % 256) as u8,
            ((p / 65536) % 256) as u8,
            (p / 16777216) as u8,
            sf,
            (s % 256) as u8,
            (s / 256) as u8,
        ];
        assert(r@ =~= fixed_bytes_of(*self));
        r
    }

    /// Decodes the fixed ten-byte encoding from a slice.
    pub fn from_bytes(b: &[u8]) -> (r: ValueId)
        requires
            b@.len() == INDEX_POINTER_SIZE,
        ensures
            r == value_id_of(b@),
    {
        let c: u16 = b[0] as u16 + (b[1] as u16) * 256;
        let page_id = if b[2] != 0 {
            Some(b[3] as u32 + (b[4] as u32) * 256 + (b[5] as u32) * 65536 + (b[6] as u32) * 16777216)
        } else {
            None
        };
        let slot_id = if b[7] != 0 {
            Some(b[8] as u16 + (b[9] as u16) * 256)
        } else {
            None
        };
        ValueId { container_id: c, page_id, slot_id }
    }

    /// Decodes the fixed ten-byte encoding.
    pub fn from_fixed_bytes(b: &[u8; INDEX_POINTER_SIZE]) -> (r: ValueId)
        ensures
            r == value_id_of(b@),
    {
        let c: u16 = b[0] as u16 + (b[1] as u16) * 256;
        let page_id = if b[2] != 0 {
            Some(b[3] as u32 + (b[4] as u32) * 256 + (b[5] as u32) * 65536 + (b[6] as u32) * 16777216)
        } else {
            None
        };
        let slot_id = if b[7] != 0 {
            Some(b[8] as u16 + (b[9] as u16) * 256)
        } else {
            None
        };
        ValueId { container_id: c, page_id, slot_id }
    }
}

} // verus!
