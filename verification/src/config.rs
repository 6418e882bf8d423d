//! Sizes and constants of the storage format.

use vstd::prelude::*;

use crate::types::{NodeGroupIdx, NodeOffset};

verus! {

pub struct StorageConfig;

impl StorageConfig {
    pub const PAGE_SIZE_LOG2: u32 = 12;

    pub const PAGE_SIZE: u64 = 4096;

    pub const NODE_GROUP_SIZE_LOG2: u32 = 16;

    pub const NODE_GROUP_SIZE: u64 = 65536;

    /// `NODE_GROUP_SIZE` is a whole multiple of it.
    pub const CHUNKED_NODE_GROUP_CAPACITY: u64 = 2048;

    pub const MAX_PROPERTIES_PER_LABEL: usize = 64;

    /// The page index of the database header.
    pub const DB_HEADER_PAGE_IDX: u64 = 0;

    pub const LOG_SEGMENT_SIZE_LOG2: u32 = 8;

    pub const LOG_SEGMENT_SIZE: u64 = 256;

    pub const FILE_SUFFIX: &'static str = "cheguers";

    pub const STORAGE_VERSION: u32 = 1;
}

/// The first node offset of a group. Offsets are 64 bits wide, so higher bits are lost.
#[inline]
pub fn get_start_offset_of_node_group(node_group_idx: NodeGroupIdx) -> (offset: NodeOffset)
    ensures
        offset == (node_group_idx.0 * 65536) % 0x1_0000_0000_0000_0000,
{
    let idx: u64 = node_group_idx.0;
    assert((idx << 16) == (idx * 65536) % 0x1_0000_0000_0000_0000) by (bit_vector);
    idx << StorageConfig::NODE_GROUP_SIZE_LOG2
}

/// The group that a node offset falls into.
#[inline]
pub fn get_node_group_idx(node_offset: NodeOffset) -> (idx: NodeGroupIdx)
    ensures
        idx.0 == node_offset / 65536,
{
    assert((node_offset >> 16) == node_offset / 65536) by (bit_vector);
    NodeGroupIdx(node_offset >> StorageConfig::NODE_GROUP_SIZE_LOG2)
}

/// `CHEGUERSDB` and six zero bytes.
pub const MAGIC_BYTES: [u8; 16] = [67, 72, 69, 71, 85, 69, 82, 83, 68, 66, 0, 0, 0, 0, 0, 0];

/// Each offset of a group's range, and no other, falls into that group.
pub proof fn law_group_covers_its_range(group: u64, offset: u64)
    requires
        group < 0x1_0000_0000_0000,
    ensures
        (group * 65536) % 0x1_0000_0000_0000_0000 == group * 65536,
        offset / 65536 == group <==> group * 65536 <= offset < (group + 1) * 65536,
{
}

/// The sizes fit together: a page is 2^12 bytes, a group 2^16 rows, and a group is made of whole
/// chunks.
pub proof fn law_sizes()
    ensures
        StorageConfig::PAGE_SIZE == 1u64 << StorageConfig::PAGE_SIZE_LOG2,
        StorageConfig::NODE_GROUP_SIZE == 1u64 << StorageConfig::NODE_GROUP_SIZE_LOG2,
        StorageConfig::LOG_SEGMENT_SIZE == 1u64 << StorageConfig::LOG_SEGMENT_SIZE_LOG2,
        StorageConfig::NODE_GROUP_SIZE % StorageConfig::CHUNKED_NODE_GROUP_CAPACITY == 0,
{
    assert(1u64 << 12u32 == 4096) by (bit_vector);
    assert(1u64 << 16u32 == 65536) by (bit_vector);
    assert(1u64 << 8u32 == 256) by (bit_vector);
}

} // verus!
