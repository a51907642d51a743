//! Configuration of the consensus.

use vstd::prelude::*;
use crate::signature::PrivateKey;
use crate::time::MassaTime;

verus! {

/// Time of a period, in milliseconds.
pub const T0_MILLIS: u64 = 16000;

/// Number of threads.
pub const THREAD_COUNT: u8 = 32;

/// Number of endorsements that a block header can hold.
pub const ENDORSEMENT_COUNT: u32 = 16;

/// Fitness by which the blockclique must lead for a block to become final.
pub const DELTA_F0: u64 = 1088;

/// Largest gas that the operations of a block may use.
pub const MAX_GAS_PER_BLOCK: u64 = 4294967295;

/// Number of periods during which an operation can be included.
pub const OPERATION_VALIDITY_PERIODS: u64 = 10;

/// Number of periods in a cycle.
pub const PERIODS_PER_CYCLE: u64 = 128;

/// Size of the command channel.
pub const CHANNEL_SIZE: usize = 1024;

/// Number of final blocks in a part of a bootstrap snapshot.
pub const CONSENSUS_BOOTSTRAP_PART_SIZE: u64 = 50;

/// The configuration of the consensus.
#[derive(Clone, Copy, Debug)]
pub struct ConsensusConfig {
    /// Correction applied to the clock, in milliseconds.
    pub clock_compensation_millis: i64,
    /// Time of the first slot.
    pub genesis_timestamp: MassaTime,
    /// Time of a period.
    pub t0: MassaTime,
    /// Number of threads.
    pub thread_count: u8,
    /// Key that signs the genesis blocks.
    pub genesis_key: PrivateKey,
    /// Largest number of discarded blocks that are remembered.
    pub max_discarded_blocks: usize,
    /// How many periods ahead of the current slot a block is still accepted.
    pub future_block_processing_max_periods: u64,
    /// Largest number of blocks that wait for their slot.
    pub max_future_processing_blocks: usize,
    /// Largest number of blocks that wait for dependencies.
    pub max_dependency_blocks: usize,
    /// Longest wait before the wishlist is sent.
    pub max_send_wait: MassaTime,
    /// Time between two prunings of the block store.
    pub block_db_prune_interval: MassaTime,
    /// Largest number of items in an answer.
    pub max_item_return_count: usize,
    /// Largest gas that the operations of a block may use.
    pub max_gas_per_block: u64,
    /// Fitness by which the blockclique must lead for a block to become final.
    pub delta_f0: u64,
    /// Number of periods during which an operation can be included.
    pub operation_validity_periods: u64,
    /// Number of periods in a cycle.
    pub periods_per_cycle: u64,
    /// Number of periods during which final blocks are kept.
    pub force_keep_final_periods: u64,
    /// Number of endorsements that a block header can hold.
    pub endorsement_count: u32,
    /// Time after which no block is produced, if any.
    pub end_timestamp: Option<MassaTime>,
    /// Time span over which statistics are kept.
    pub stats_timespan: MassaTime,
    /// Size of the command channel.
    pub channel_size: usize,
    /// Number of final blocks in a part of a bootstrap snapshot.
    pub bootstrap_part_size: u64,
    /// Whether broadcasts are enabled.
    pub ws_enabled: bool,
    /// Capacity of the broadcast of block headers.
    pub ws_blocks_headers_capacity: usize,
    /// Capacity of the broadcast of blocks.
    pub ws_blocks_capacity: usize,
    /// Capacity of the broadcast of filled blocks.
    pub ws_filled_blocks_capacity: usize,
}

impl ConsensusConfig {
    /// The default configuration, for the given genesis key and genesis time.
    pub fn default_with(genesis_key: PrivateKey, genesis_timestamp: MassaTime) -> (r:
        ConsensusConfig)
        ensures
            r.clock_compensation_millis == 0,
            r.genesis_timestamp == genesis_timestamp,
            r.t0.millis == T0_MILLIS,
            r.thread_count == THREAD_COUNT,
            r.genesis_key@ == genesis_key@,
            r.max_discarded_blocks == 10000,
            r.future_block_processing_max_periods == 100,
            r.max_future_processing_blocks == 100,
            r.max_dependency_blocks == 2048,
            r.max_send_wait.millis == 100,
            r.block_db_prune_interval.millis == 5000,
            r.max_item_return_count == 100,
            r.max_gas_per_block == MAX_GAS_PER_BLOCK,
            r.delta_f0 == DELTA_F0,
            r.operation_validity_periods == OPERATION_VALIDITY_PERIODS,
            r.periods_per_cycle == PERIODS_PER_CYCLE,
            r.force_keep_final_periods == 20,
            r.endorsement_count == ENDORSEMENT_COUNT,
            r.end_timestamp is None,
            r.stats_timespan.millis == 60000,
            r.channel_size == CHANNEL_SIZE,
            r.bootstrap_part_size == CONSENSUS_BOOTSTRAP_PART_SIZE,
            r.ws_enabled,
            r.ws_blocks_headers_capacity == 128,
            r.ws_blocks_capacity == 128,
            r.ws_filled_blocks_capacity == 128,
            r.valid(),
    {
        ConsensusConfig {
            clock_compensation_millis: 0,
            genesis_timestamp,
            t0: MassaTime::from_millis(T0_MILLIS),
            thread_count: THREAD_COUNT,
            genesis_key,
            max_discarded_blocks: 10000,
            future_block_processing_max_periods: 100,
            max_future_processing_blocks: 100,
            max_dependency_blocks: 2048,
            max_send_wait: MassaTime::from_millis(100),
            block_db_prune_interval: MassaTime::from_millis(5000),
            max_item_return_count: 100,
            max_gas_per_block: MAX_GAS_PER_BLOCK,
            delta_f0: DELTA_F0,
            operation_validity_periods: OPERATION_VALIDITY_PERIODS,
            periods_per_cycle: PERIODS_PER_CYCLE,
            force_keep_final_periods: 20,
            endorsement_count: ENDORSEMENT_COUNT,
            end_timestamp: None,
            stats_timespan: MassaTime::from_millis(60000),
            channel_size: CHANNEL_SIZE,
            bootstrap_part_size: CONSENSUS_BOOTSTRAP_PART_SIZE,
            ws_enabled: true,
            ws_blocks_headers_capacity: 128,
            ws_blocks_capacity: 128,
            ws_filled_blocks_capacity: 128,
        }
    }

    /// Whether the configuration can be run: there is a thread, a period takes time,
    /// and a cycle has periods.
    pub open spec fn valid(&self) -> bool {
        &&& self.thread_count > 0
        &&& self.t0.millis > 0
        &&& self.periods_per_cycle > 0
    }

    /// Whether the configuration can be run.
    pub fn is_valid(&self) -> (r: bool)
        ensures
            r == self.valid(),
    {
        self.thread_count > 0 && self.t0.millis > 0 && self.periods_per_cycle > 0
    }
}

} // verus!
