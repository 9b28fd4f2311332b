//! What is remembered of the blocks that were mined.

use vstd::prelude::*;

verus! {

/// How many blocks are remembered.
pub const RECENT_BLOCKS: usize = 5;

/// A block was mined.
pub struct MiningEvent {
    pub height: u32,
    pub nonce: u64,
    pub worker_id: u64,
    pub hash: String,
    pub hashes_tried: u64,
    /// How long it took, in nanoseconds.
    pub elapsed: u64,
}

/// A block that was mined.
pub struct BlockInfo {
    pub height: u32,
    pub hash: String,
    pub nonce: u64,
    pub core: u64,
    /// When it was noted, in nanoseconds.
    pub timestamp: u64,
    /// How many hashes were tried, and how long that took, in nanoseconds.
    pub effort: (u64, u64),
}

impl BlockInfo {
    /// The block of an event.
    pub fn from_event(event: MiningEvent, now: u64) -> (r: Self)
        ensures
            r == (BlockInfo {
                height: event.height,
                hash: event.hash,
                nonce: event.nonce,
                core: event.worker_id,
                timestamp: now,
                effort: (event.hashes_tried, event.elapsed),
            }),
    {
        BlockInfo {
            height: event.height,
            hash: event.hash,
            nonce: event.nonce,
            core: event.worker_id,
            timestamp: now,
            effort: (event.hashes_tried, event.elapsed),
        }
    }
}

/// What is remembered of the mining.
pub struct MiningStats {
    pub start_time: u64,
    pub blocks_mined: u64,
    pub current_height: u32,
    pub current_hash: String,
    pub difficulty: String,
    pub network: String,
    /// The latest first.
    pub recent_blocks: Vec<BlockInfo>,
    pub last_block_time: Option<u64>,
    pub effort: (u64, u64),
}

/// The latest blocks, once there is one more.
pub open spec fn latest(blocks: Seq<BlockInfo>, block: BlockInfo) -> Seq<BlockInfo> {
    let all = seq![block] + blocks;
    if all.len() > RECENT_BLOCKS {
        all.take(RECENT_BLOCKS as int)
    } else {
        all
    }
}

/// No more blocks are remembered than the limit, the latest among them.
pub proof fn lemma_latest(blocks: Seq<BlockInfo>, block: BlockInfo)
    requires
        blocks.len() <= RECENT_BLOCKS,
    ensures
        latest(blocks, block).len() <= RECENT_BLOCKS,
        latest(blocks, block)[0] == block,
{
}

impl MiningStats {
    /// Nothing is mined yet.
    pub fn new(network: String, now: u64) -> (r: Self)
        ensures
            r.start_time == now,
            r.blocks_mined == 0,
            r.current_height == 0,
            r.current_hash@.len() == 0,
            r.difficulty@.len() == 0,
            r.network == network,
            r.recent_blocks@ == Seq::<BlockInfo>::empty(),
            r.last_block_time is None,
            r.effort == (0u64, 0u64),
    {
        proof {
            reveal_strlit("");
        }
        MiningStats {
            start_time: now,
            blocks_mined: 0,
            current_height: 0,
            current_hash: "".to_owned(),
            difficulty: "".to_owned(),
            network,
            recent_blocks: Vec::new(),
            last_block_time: None,
            effort: (0, 0),
        }
    }

    /// Notes a block.
    pub fn add_block(&mut self, block: BlockInfo)
        requires
            old(self).blocks_mined < u64::MAX,
        ensures
            final(self).blocks_mined == old(self).blocks_mined + 1,
            final(self).last_block_time == Some(block.timestamp),
            final(self).current_height == block.height,
            final(self).current_hash@ == block.hash@,
            final(self).effort == block.effort,
            final(self).recent_blocks@ == latest(old(self).recent_blocks@, block),
            final(self).start_time == old(self).start_time,
            final(self).difficulty == old(self).difficulty,
            final(self).network == old(self).network,
    {
        self.blocks_mined = self.blocks_mined + 1;
        self.last_block_time = Some(block.timestamp);
        self.current_height = block.height;
        self.current_hash = block.hash.as_str().to_owned();
        self.effort = block.effort;
        let ghost before = self.recent_blocks@;
        self.recent_blocks.insert(0, block);
        assert(self.recent_blocks@ =~= seq![block] + before);
        if self.recent_blocks.len() > RECENT_BLOCKS {
            self.recent_blocks.truncate(RECENT_BLOCKS);
            assert(self.recent_blocks@ =~= (seq![block] + before).take(RECENT_BLOCKS as int));
        }
    }

    /// How long the mining goes on, in nanoseconds.
    pub fn uptime(&self, now: u64) -> (r: u64)
        ensures
            r == (if now >= self.start_time {
                now - self.start_time
            } else {
                0
            }),
    {
        if now >= self.start_time {
            now - self.start_time
        } else {
            0
        }
    }
}

} // verus!
