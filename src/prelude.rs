use vstd::prelude::*;

verus! {

/// Bytes in one page.
pub const PAGE_SIZE: usize = 4096;
/// Bytes in the value of a base-table record.
pub const VALUE_SIZE: usize = PAGE_SIZE / 32;
/// Bytes in the key of a base-table record.
pub const KEY_SIZE: usize = VALUE_SIZE / 8;
/// Bytes in a search key; the last bytes of a record's value.
pub const SEARCH_KEY_SIZE: usize = 8;
/// Bytes in the fixed encoding of a value id.
pub const INDEX_POINTER_SIZE: usize = 10;
/// Bytes in one index entry.
pub const INDEX_ENTRY_SIZE: usize = SEARCH_KEY_SIZE + INDEX_POINTER_SIZE;
/// Records of a base-table page.
pub const DATA_VALUE_COUNT: usize = PAGE_SIZE / (KEY_SIZE + VALUE_SIZE);
/// Entries of an index page.
pub const INDEX_VALUE_COUNT: usize = PAGE_SIZE / INDEX_ENTRY_SIZE;
/// The most slots a page can track.
pub const PAGE_SLOT_LIMIT: usize = 1024;
/// The fewest slots a usable page holds.
pub const MIN_SLOT_COUNT: usize = 7;

/// The search key of a record: the last `SEARCH_KEY_SIZE` bytes of its value.
pub open spec fn search_key_of(value: Seq<u8>) -> Seq<u8> {
    value.subrange(VALUE_SIZE - SEARCH_KEY_SIZE, VALUE_SIZE as int)
}

/// The search key of a record value.
pub fn extract_search_key(data: &[u8]) -> (r: [u8; SEARCH_KEY_SIZE])
    requires
        data@.len() == VALUE_SIZE,
    ensures
        r@ == search_key_of(data@),
{
    let o = VALUE_SIZE - SEARCH_KEY_SIZE;
    let r = [data[o], data[o + 1], data[o + 2], data[o + 3], data[o + 4], data[o + 5], data[o + 6], data[o + 7]];
    assert(r@ =~= search_key_of(data@));
    r
}

} // verus!
