//! Core of a small Bitcoin-style chain: block and transaction values, the
//! chain state with its unspent outputs and memory pool, difficulty
//! retargeting, and the length-prefixed framing of network messages.
pub mod blockchain;
mod clock;
pub mod difficulty;
pub mod error;
pub mod laws;
pub mod mempool;
pub mod network;
pub mod u256;
pub mod types;
pub mod utxo;

use vstd::prelude::*;

verus! {

/// Block reward of the first halving era, in whole coins.
pub const INITIAL_REWARD: u64 = 50;

/// Number of blocks between two halvings of the reward.
pub const HALVING_INTERVAL: u64 = 210;

/// Seconds in which one block should ideally be found.
pub const IDEAL_BLOCK_TIME: u64 = 10;

/// Number of blocks between two difficulty adjustments.
pub const DIFFICULTY_UPDATE_INTERVAL: u64 = 50;

/// Seconds after which a pooled transaction expires.
pub const MAX_MEMPOOL_TRANSACTION_AGE: u64 = 600;

/// Largest number of transactions a block template carries.
pub const BLOCK_TRANSACTION_CAP: usize = 20;

/// The easiest target a block may have: 2^240 - 1.
pub open spec fn spec_min_target() -> nat {
    (u256::u256_bound() / 0x1_0000 - 1) as nat
}

/// The easiest target a block may have: 2^240 - 1, that is `0x0000FFFF...FFFF`.
pub fn min_target() -> (t: u256::U256)
    ensures
        t@ == spec_min_target(),
{
    let t = u256::U256::from_limbs(
        [0xFFFF_FFFF_FFFF_FFFF, 0xFFFF_FFFF_FFFF_FFFF, 0xFFFF_FFFF_FFFF_FFFF, 0x0000_FFFF_FFFF_FFFF],
    );
    assert(t@ == spec_min_target());
    t
}

} // verus!
