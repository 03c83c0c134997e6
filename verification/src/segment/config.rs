//! Segment-pool allocator configuration.

use vstd::prelude::*;

verus! {

pub const DEFAULT_MAX_ALLOCATOR_NODES_PER_SEGMENT: u32 = 131072;

pub const DEFAULT_ALLOCATOR_SHARDS: usize = 1;

pub const MIN_ALLOCATOR_NODES_PER_SEGMENT: u32 = 3;

pub const MAX_ALLOCATOR_NODES_PER_SEGMENT_EXCLUSIVE: u32 = 0xffff_fffe;

/// How the pool sets up the allocator of each segment.
#[derive(Clone, Copy, Debug, Eq, PartialEq, Structural)]
pub struct SegmentPoolConfig {
    pub max_allocator_nodes_per_segment: u32,
    pub allocator_shards: usize,
    pub allocator_shard_index: Option<usize>,
}

impl SegmentPoolConfig {
    /// Whether a pool can be made with this configuration: every allocator
    /// shard gets the smallest number of nodes an allocator works with.
    pub open spec fn is_valid(self) -> bool {
        &&& MIN_ALLOCATOR_NODES_PER_SEGMENT <= self.max_allocator_nodes_per_segment
            < MAX_ALLOCATOR_NODES_PER_SEGMENT_EXCLUSIVE
        &&& self.allocator_shards > 0
        &&& self.max_allocator_nodes_per_segment as int / self.allocator_shards as int
            >= MIN_ALLOCATOR_NODES_PER_SEGMENT
    }

    pub fn new(max_allocator_nodes_per_segment: u32) -> (config: Self)
        ensures
            config == (SegmentPoolConfig {
                max_allocator_nodes_per_segment,
                allocator_shards: DEFAULT_ALLOCATOR_SHARDS,
                allocator_shard_index: None,
            }),
    {
        Self {
            max_allocator_nodes_per_segment,
            allocator_shards: DEFAULT_ALLOCATOR_SHARDS,
            allocator_shard_index: None,
        }
    }

    /// Splits each direct-memory resource into disjoint allocator extents.
    /// Empty extents may move between metadata shard owners under pressure.
    pub fn with_allocator_shards(self, allocator_shards: usize) -> (config: Self)
        ensures
            config == (SegmentPoolConfig {
                allocator_shards,
                allocator_shard_index: None,
                ..self
            }),
    {
        Self { allocator_shards, allocator_shard_index: None, ..self }
    }

    /// Keeps only one of the disjoint allocator extents.
    pub fn for_allocator_shard(
        self,
        allocator_shard_index: usize,
        allocator_shards: usize,
    ) -> (config: Self)
        ensures
            config == (SegmentPoolConfig {
                allocator_shards,
                allocator_shard_index: Some(allocator_shard_index),
                ..self
            }),
    {
        Self { allocator_shards, allocator_shard_index: Some(allocator_shard_index), ..self }
    }

    /// Returns the fixed metadata-node budget created for each direct-memory
    /// allocator.
    pub fn max_allocator_nodes_per_segment(self) -> (nodes: u32)
        ensures
            nodes == self.max_allocator_nodes_per_segment,
    {
        self.max_allocator_nodes_per_segment
    }

    pub fn allocator_shards(self) -> (shards: usize)
        ensures
            shards == self.allocator_shards,
    {
        self.allocator_shards
    }
}

impl Default for SegmentPoolConfig {
    fn default() -> (config: Self)
        ensures
            config == (SegmentPoolConfig {
                max_allocator_nodes_per_segment: DEFAULT_MAX_ALLOCATOR_NODES_PER_SEGMENT,
                allocator_shards: DEFAULT_ALLOCATOR_SHARDS,
                allocator_shard_index: None,
            }),
            config.is_valid(),
    {
        proof {
            assert(DEFAULT_MAX_ALLOCATOR_NODES_PER_SEGMENT as int / DEFAULT_ALLOCATOR_SHARDS as int
                == 131072) by (nonlinear_arith)
                requires
                    DEFAULT_ALLOCATOR_SHARDS == 1,
                    DEFAULT_MAX_ALLOCATOR_NODES_PER_SEGMENT == 131072,
            ;
        }
        Self::new(DEFAULT_MAX_ALLOCATOR_NODES_PER_SEGMENT)
    }
}

} // verus!
