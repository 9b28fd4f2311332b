//! Parameters of the networks.

use crate::consensus::block::U256;
use crate::consensus::difficulty::{MAINNET_MAX_TARGET, REGTEST_MAX_TARGET, TESTNET_MAX_TARGET};
use vstd::prelude::*;

verus! {

#[derive(Debug, Clone, Copy)]
pub struct ChainParams {
    pub target_block_time: u64,
    pub max_target: U256,
    pub difficulty_adjustment: bool,
    pub allow_min_difficulty_blocks: bool,
    /// n_bits for the genesis block. Sets the starting difficulty independently
    /// of max_target (the difficulty floor).
    pub genesis_n_bits: u32,
}

#[derive(Debug, Clone, Copy, PartialEq, Eq, Structural)]
pub enum Network {
    Mainnet,
    Testnet,
    Regtest,
}

impl ChainParams {
    /// Where difficulty is adjusted, the block time is not zero and six times
    /// the block time fits into a machine word.
    pub open spec fn valid(&self) -> bool {
        self.difficulty_adjustment ==> 1 <= self.target_block_time && self.target_block_time * 6
            <= u64::MAX
    }
}

impl Network {
    /// First byte of an address.
    pub open spec fn prefix_byte(self) -> u8 {
        if self == Network::Mainnet {
            0x00
        } else {
            0x6f
        }
    }

    /// The parameters of the network.
    pub open spec fn chain_params(self) -> ChainParams {
        match self {
            Network::Mainnet => ChainParams {
                target_block_time: 150,
                max_target: U256(MAINNET_MAX_TARGET),
                difficulty_adjustment: true,
                allow_min_difficulty_blocks: false,
                genesis_n_bits: 0x1d00_ffff,
            },
            Network::Testnet => ChainParams {
                target_block_time: 150,
                max_target: U256(TESTNET_MAX_TARGET),
                difficulty_adjustment: true,
                allow_min_difficulty_blocks: false,
                genesis_n_bits: 0x1F0A_E3D6,
            },
            Network::Regtest => ChainParams {
                target_block_time: 1,
                max_target: U256(REGTEST_MAX_TARGET),
                difficulty_adjustment: false,
                allow_min_difficulty_blocks: true,
                genesis_n_bits: 0x207f_ffff,
            },
        }
    }

    pub fn prefix(&self) -> (r: u8)
        ensures
            r == self.prefix_byte(),
    {
        match self {
            Network::Mainnet => 0x00,
            Network::Testnet => 0x6f,
            Network::Regtest => 0x6f,
        }
    }

    pub fn params(&self) -> (r: ChainParams)
        ensures
            r == self.chain_params(),
            r.valid(),
    {
        match self {
            Network::Mainnet => ChainParams {
                target_block_time: 150,
                max_target: U256(MAINNET_MAX_TARGET),
                difficulty_adjustment: true,
                allow_min_difficulty_blocks: false,
                // Bitcoin mainnet difficulty-1 (0x1d00ffff): very hard, as intended.
                genesis_n_bits: 0x1d00_ffff,
            },
            Network::Testnet => ChainParams {
                target_block_time: 150,
                max_target: U256(TESTNET_MAX_TARGET),
                difficulty_adjustment: true,
                allow_min_difficulty_blocks: false,
                // Genesis nonce 99 found under RandomX epoch 0.
                genesis_n_bits: 0x1F0A_E3D6,
            },
            Network::Regtest => ChainParams {
                target_block_time: 1,
                max_target: U256(REGTEST_MAX_TARGET),
                difficulty_adjustment: false,
                allow_min_difficulty_blocks: true,
                genesis_n_bits: 0x207f_ffff,  // trivial: instant mining for tests
            },
        }
    }
}

} // verus!
