use vstd::prelude::*;
use vstd::arithmetic::power2::pow2;

use crate::difficulty::{
    adjust_target, adjusted_target, adjustment_defined, elapsed_seconds, is_adjustment_defined,
    scaled_adjusted_target, scaled_adjustment_defined,
};
use crate::clock::utc_now;
use crate::error::BtcLibError;
use crate::mempool::{
    PoolEntry, checked_input_value_sum, checked_output_value_sum, expired, expired_inputs,
    fee_defined, find_producer, find_producer_among, input_hashes, input_total, input_value_sum,
    inputs_known_distinct, is_fee_defined, lemma_input_hashes_step, lemma_input_total_same,
    lemma_release_keeps_outputs, lemma_unmarked_empty, lemma_unmarked_insert, output_total,
    output_value_sum, picked, release_inputs, sort_by_fee, sort_pool_by_fee, unmark_spent, unmarked,
};
use crate::types;
use crate::types::{Block, MerkleRoot, Timestamp, Transaction, TransactionInput, TransactionOutput, zero_hash};
use crate::u256::U256;
use crate::utxo::UtxoSet;

verus! {

/// What a chain holds, seen as mathematical values.
pub struct ChainState {
    pub blocks: Seq<Block>,
    pub target: U256,
    pub utxos: Map<types::Hash, (bool, TransactionOutput)>,
    pub mempool: Seq<(Timestamp, Transaction)>,
}

/// The chain: its blocks, the current difficulty target, the unspent outputs
/// (each with a mark telling whether a pooled transaction spends it), and the
/// memory pool of transactions waiting for a block, each with the time it
/// entered the pool.
#[derive(Clone, Debug)]
pub struct Blockchain {
    blocks: Vec<Block>,
    target: U256,
    utxos: UtxoSet,
    mempool: Vec<(Timestamp, Transaction)>,
}

impl View for Blockchain {
    type V = ChainState;

    closed spec fn view(&self) -> ChainState {
        ChainState {
            blocks: self.blocks@,
            target: self.target,
            utxos: self.utxos@,
            mempool: self.mempool@,
        }
    }
}

/// The removals that a transaction's inputs make, in order.
pub open spec fn remove_inputs(
    u: Map<types::Hash, (bool, TransactionOutput)>,
    ins: Seq<TransactionInput>,
) -> Map<types::Hash, (bool, TransactionOutput)>
    decreases ins.len(),
{
    if ins.len() == 0 {
        u
    } else {
        remove_inputs(u, ins.drop_last()).remove(ins.last().prev_transaction_output_hash)
    }
}

/// The insertions that a transaction's outputs make, in order, each unmarked
/// and each under the key `key`.
pub open spec fn insert_outputs(
    u: Map<types::Hash, (bool, TransactionOutput)>,
    key: types::Hash,
    outs: Seq<TransactionOutput>,
) -> Map<types::Hash, (bool, TransactionOutput)>
    decreases outs.len(),
{
    if outs.len() == 0 {
        u
    } else {
        insert_outputs(u, key, outs.drop_last()).insert(key, (false, outs.last()))
    }
}

/// Replaying one transaction: its inputs are removed, then its outputs are
/// inserted under the transaction's digest.
pub open spec fn replay_transaction(
    u: Map<types::Hash, (bool, TransactionOutput)>,
    tx: Transaction,
) -> Map<types::Hash, (bool, TransactionOutput)> {
    insert_outputs(remove_inputs(u, tx.inputs@), tx.digest, tx.outputs@)
}

/// Replaying transactions in order.
pub open spec fn replay_transactions(
    u: Map<types::Hash, (bool, TransactionOutput)>,
    txs: Seq<Transaction>,
) -> Map<types::Hash, (bool, TransactionOutput)>
    decreases txs.len(),
{
    if txs.len() == 0 {
        u
    } else {
        replay_transaction(replay_transactions(u, txs.drop_last()), txs.last())
    }
}

/// Replaying the transactions of blocks in order.
pub open spec fn replay_blocks(
    u: Map<types::Hash, (bool, TransactionOutput)>,
    blocks: Seq<Block>,
) -> Map<types::Hash, (bool, TransactionOutput)>
    decreases blocks.len(),
{
    if blocks.len() == 0 {
        u
    } else {
        replay_transactions(replay_blocks(u, blocks.drop_last()), blocks.last().transactions@)
    }
}

/// Number of halvings the reward has gone through at a given height.
pub open spec fn halvings(height: nat) -> nat {
    height / (crate::HALVING_INTERVAL as nat)
}

/// The block reward at a given height, in satoshis: 50 coins halved once every
/// 210 blocks.
pub open spec fn block_reward(height: nat) -> nat {
    5_000_000_000nat / pow2(halvings(height))
}

/// A retarget is due when the chain is not empty and its length is a multiple
/// of the adjustment interval.
pub open spec fn retarget_due(blocks: Seq<Block>) -> bool {
    blocks.len() > 0 && blocks.len() % (crate::DIFFICULTY_UPDATE_INTERVAL as nat) == 0
}

/// The timestamp of the first block of the last adjustment interval.
pub open spec fn interval_start(blocks: Seq<Block>) -> Timestamp {
    blocks[blocks.len() - crate::DIFFICULTY_UPDATE_INTERVAL].header.timestamp
}

/// The timestamp of the last block.
pub open spec fn interval_end(blocks: Seq<Block>) -> Timestamp {
    blocks.last().header.timestamp
}

/// Retargeting a chain with these blocks at this target completes.
pub open spec fn retarget_defined(blocks: Seq<Block>, target: U256) -> bool {
    retarget_due(blocks) ==> adjustment_defined(interval_start(blocks), interval_end(blocks), target@)
}

/// The target after retargeting a chain with these blocks.
pub open spec fn retargeted(blocks: Seq<Block>, target: U256) -> nat {
    if retarget_due(blocks) {
        adjusted_target(interval_start(blocks), interval_end(blocks), target@)
    } else {
        target@
    }
}

/// The seconds the last adjustment interval took, rounded toward zero.
pub open spec fn interval_elapsed(blocks: Seq<Block>) -> int {
    elapsed_seconds(interval_start(blocks), interval_end(blocks))
}

/// Numerically, when the last interval took no negative time: the target
/// after retargeting, from the target scaled by that time over the ideal time.
pub open spec fn scaled_retarget(blocks: Seq<Block>, target: U256) -> nat {
    if retarget_due(blocks) {
        scaled_adjusted_target(target@, interval_elapsed(blocks))
    } else {
        target@
    }
}

/// A block contains a transaction with this digest.
pub open spec fn block_has_transaction(block: Block, h: types::Hash) -> bool {
    exists|j: int| 0 <= j < block.transactions@.len() && block.transactions@[j].digest == h
}

/// The pooled entries that a new block leaves in the pool: those whose
/// transaction the block does not contain.
pub open spec fn kept_after_block(block: Block) -> spec_fn((Timestamp, Transaction)) -> bool {
    |e: (Timestamp, Transaction)| !block_has_transaction(block, e.1.digest)
}

/// Why a block is refused, if it is. The first block must name the zero
/// digest as predecessor. Every later block must name the last block's digest,
/// have a header digest within its own target, carry the Merkle root that its
/// transactions give, be later than the last block, and pass the check of its
/// transactions against the unspent outputs.
pub open spec fn block_rejection(
    c: ChainState,
    block: Block,
    calculated_merkle_root: MerkleRoot,
    transactions_verdict: Result<(), BtcLibError>,
) -> Option<BtcLibError> {
    if c.blocks.len() == 0 {
        if block.header.prev_block_hash != zero_hash() {
            Some(BtcLibError::InvalidBlock)
        } else {
            None
        }
    } else {
        let last = c.blocks.last();
        if block.header.prev_block_hash != last.digest {
            Some(BtcLibError::InvalidBlock)
        } else if !(block.header.digest.0@ <= block.header.target@) {
            Some(BtcLibError::InvalidBlock)
        } else if calculated_merkle_root != block.header.merkle_root {
            Some(BtcLibError::InvalidMerkleRoot)
        } else if block.header.timestamp.not_after(last.header.timestamp) {
            Some(BtcLibError::InvalidBlock)
        } else {
            match transactions_verdict {
                Err(e) => Some(e),
                Ok(_) => None,
            }
        }
    }
}

/// Adding a block that passes the checks completes: retargeting the longer
/// chain completes.
pub open spec fn block_addition_defined(
    c: ChainState,
    block: Block,
    calculated_merkle_root: MerkleRoot,
    transactions_verdict: Result<(), BtcLibError>,
) -> bool {
    block_rejection(c, block, calculated_merkle_root, transactions_verdict) is None
        ==> retarget_defined(c.blocks.push(block), c.target)
}

/// The outcome of adding a block: refused with the first failing check and
/// nothing changed, or appended, with the block's transactions dropped from
/// the pool and the target retargeted.
pub open spec fn block_added(
    pre: ChainState,
    post: ChainState,
    block: Block,
    calculated_merkle_root: MerkleRoot,
    transactions_verdict: Result<(), BtcLibError>,
    r: Result<(), BtcLibError>,
) -> bool {
    match block_rejection(pre, block, calculated_merkle_root, transactions_verdict) {
        Some(e) => r == Err::<(), BtcLibError>(e) && post == pre,
        None => {
            &&& r is Ok
            &&& post.blocks == pre.blocks.push(block)
            &&& post.target@ == retargeted(pre.blocks.push(block), pre.target)
            &&& post.utxos == pre.utxos
            &&& post.mempool == pre.mempool.filter(kept_after_block(block))
        },
    }
}

/// Pooling a transaction completes: when its inputs are known and distinct,
/// both of its sums fit in 64 bits, and, when it is accepted into a pool that
/// already holds entries, the miner fee of every entry left in the pool can be
/// computed (sorting the pool computes them).
pub open spec fn mempool_addition_defined(c: ChainState, tx: Transaction) -> bool {
    inputs_known_distinct(c.utxos, tx) ==> {
        let released = release_inputs((c.utxos, c.mempool), tx.inputs@);
        &&& input_total(released.0, tx.inputs@) <= u64::MAX
        &&& output_total(tx.outputs@) <= u64::MAX
        &&& (input_total(released.0, tx.inputs@) >= output_total(tx.outputs@) && released.1.len()
            >= 1) ==> forall|i: int|
            0 <= i < released.1.len() ==> fee_defined(released.0, #[trigger] released.1[i].1)
    }
}

/// The outcome of pooling `tx` at time `now`. A transaction with an unknown
/// or repeated input is refused and nothing changes. Otherwise each input
/// whose output is marked releases it (`release_inputs`); then the
/// transaction is refused if its inputs bring in less than its outputs pay
/// out (the releases stay), or else it joins the pool, which is sorted by
/// ascending miner fee.
pub open spec fn mempool_added(
    pre: ChainState,
    post: ChainState,
    tx: Transaction,
    now: Timestamp,
    r: Result<(), BtcLibError>,
) -> bool {
    if !inputs_known_distinct(pre.utxos, tx) {
        r == Err::<(), BtcLibError>(BtcLibError::InvalidTransaction) && post == pre
    } else {
        let released = release_inputs((pre.utxos, pre.mempool), tx.inputs@);
        if input_total(released.0, tx.inputs@) < output_total(tx.outputs@) {
            &&& r == Err::<(), BtcLibError>(BtcLibError::InvalidTransaction)
            &&& post == ChainState { utxos: released.0, mempool: released.1, ..pre }
        } else {
            &&& r is Ok
            &&& post == ChainState {
                utxos: released.0,
                mempool: sort_by_fee(released.1.push((now, tx)), released.0),
                ..pre
            }
        }
    }
}

/// The entries that are still young at `now`.
pub open spec fn young_at(now: Timestamp) -> spec_fn(PoolEntry) -> bool {
    |e: PoolEntry| !expired(now, e)
}

/// The outcome of clearing the pool at `now`: expired entries leave, and the
/// outputs their inputs spend are unmarked.
pub open spec fn mempool_cleaned(pre: ChainState, post: ChainState, now: Timestamp) -> bool {
    post == ChainState {
        utxos: unmarked(pre.utxos, expired_inputs(now, pre.mempool)),
        mempool: pre.mempool.filter(young_at(now)),
        ..pre
    }
}

proof fn lemma_expired_inputs_step(now: Timestamp, m: Seq<PoolEntry>, k: int)
    requires
        0 <= k < m.len(),
    ensures
        expired_inputs(now, m.take(k + 1)) == expired_inputs(now, m.take(k)).union(
            if expired(now, m[k]) {
                input_hashes(m[k].1.inputs@)
            } else {
                Set::empty()
            },
        ),
{
    let s1 = m.take(k + 1);
    let s0 = m.take(k);
    let extra = if expired(now, m[k]) {
        input_hashes(m[k].1.inputs@)
    } else {
        Set::<types::Hash>::empty()
    };
    let a = expired_inputs(now, s1);
    let b = expired_inputs(now, s0).union(extra);
    assert forall|h: types::Hash| a.contains(h) <==> b.contains(h) by {
        if a.contains(h) {
            let i = choose|i: int|
                0 <= i < s1.len() && expired(now, s1[i]) && #[trigger] input_hashes(
                    s1[i].1.inputs@,
                ).contains(h);
            if i < k {
                assert(s0[i] == s1[i]);
                assert(input_hashes(s0[i].1.inputs@).contains(h));
            } else {
                assert(s1[i] == m[k]);
            }
        }
        if expired_inputs(now, s0).contains(h) {
            let i = choose|i: int|
                0 <= i < s0.len() && expired(now, s0[i]) && #[trigger] input_hashes(
                    s0[i].1.inputs@,
                ).contains(h);
            assert(s1[i] == s0[i]);
            assert(input_hashes(s1[i].1.inputs@).contains(h));
        }
        if extra.contains(h) {
            assert(s1[k] == m[k]);
            assert(input_hashes(s1[k].1.inputs@).contains(h));
        }
    }
    assert(a =~= b);
}

impl Blockchain {
    /// An empty chain at the easiest target.
    pub fn new() -> (r: Blockchain)
        ensures
            r@.blocks == Seq::<Block>::empty(),
            r@.target@ == crate::spec_min_target(),
            r@.utxos == Map::<types::Hash, (bool, TransactionOutput)>::empty(),
            r@.mempool == Seq::<(Timestamp, Transaction)>::empty(),
    {
        Blockchain {
            blocks: Vec::new(),
            target: crate::min_target(),
            utxos: UtxoSet::new(),
            mempool: Vec::new(),
        }
    }

    /// A chain made of stored parts, with an empty pool.
    pub fn from_parts(blocks: Vec<Block>, target: U256, utxos: UtxoSet) -> (r: Blockchain)
        ensures
            r@.blocks == blocks@,
            r@.target == target,
            r@.utxos == utxos@,
            r@.mempool == Seq::<(Timestamp, Transaction)>::empty(),
    {
        Blockchain { blocks, target, utxos, mempool: Vec::new() }
    }

    /// The unspent outputs.
    pub fn utxos(&self) -> (r: &UtxoSet)
        ensures
            r@ == self@.utxos,
    {
        &self.utxos
    }

    /// The current difficulty target.
    pub fn target(&self) -> (r: U256)
        ensures
            r == self@.target,
    {
        self.target
    }

    /// The blocks, oldest first.
    pub fn blocks(&self) -> (r: &Vec<Block>)
        ensures
            r@ == self@.blocks,
    {
        &self.blocks
    }

    /// The number of blocks.
    pub fn block_height(&self) -> (r: u64)
        ensures
            r == self@.blocks.len(),
    {
        self.blocks.len() as u64
    }

    /// The pooled transactions with the times they entered the pool.
    pub fn mempool(&self) -> (r: &Vec<(Timestamp, Transaction)>)
        ensures
            r@ == self@.mempool,
    {
        &self.mempool
    }

    /// The reward for the next block: 50 coins (in satoshis), halved once
    /// every 210 blocks. The shift is defined while fewer than 64 halvings
    /// have happened.
    pub fn calculate_block_reward(&self) -> (r: u64)
        requires
            halvings(self@.blocks.len()) < 64,
        ensures
            r == block_reward(self@.blocks.len()),
    {
        let block_height = self.block_height();
        let halvings = block_height / crate::HALVING_INTERVAL;
        proof {
            vstd::bits::lemma_u64_shr_is_div((crate::INITIAL_REWARD * 100_000_000) as u64, halvings);
        }
        (crate::INITIAL_REWARD * 100_000_000) >> halvings
    }

    /// Replays every transaction of every block over the current unspent
    /// outputs: each input's output is removed, then each output is stored,
    /// unmarked, under its transaction's digest.
    pub fn rebuild_utxos(&mut self)
        ensures
            final(self)@ == (ChainState {
                utxos: replay_blocks(old(self)@.utxos, old(self)@.blocks),
                ..old(self)@
            }),
    {
        let ghost u0 = self.utxos@;
        let nb = self.blocks.len();
        let mut b: usize = 0;
        while b < nb
            invariant
                b <= nb,
                nb == self.blocks@.len(),
                self.blocks@ == old(self).blocks@,
                self.target == old(self).target,
                self.mempool@ == old(self).mempool@,
                self.utxos@ == replay_blocks(u0, self.blocks@.take(b as int)),
            decreases nb - b,
        {
            let ghost before_block = self.utxos@;
            let nt = self.blocks[b].transactions.len();
            let mut t: usize = 0;
            while t < nt
                invariant
                    b < nb,
                    nb == self.blocks@.len(),
                    t <= nt,
                    nt == self.blocks@[b as int].transactions@.len(),
                    self.blocks@ == old(self).blocks@,
                    self.target == old(self).target,
                    self.mempool@ == old(self).mempool@,
                    self.utxos@ == replay_transactions(
                        before_block,
                        self.blocks@[b as int].transactions@.take(t as int),
                    ),
                decreases nt - t,
            {
                let ghost before_tx = self.utxos@;
                let ni = self.blocks[b].transactions[t].inputs.len();
                let mut i: usize = 0;
                while i < ni
                    invariant
                        b < nb,
                        nb == self.blocks@.len(),
                        t < nt,
                        nt == self.blocks@[b as int].transactions@.len(),
                        i <= ni,
                        ni == self.blocks@[b as int].transactions@[t as int].inputs@.len(),
                        self.blocks@ == old(self).blocks@,
                        self.target == old(self).target,
                        self.mempool@ == old(self).mempool@,
                        self.utxos@ == remove_inputs(
                            before_tx,
                            self.blocks@[b as int].transactions@[t as int].inputs@.take(i as int),
                        ),
                    decreases ni - i,
                {
                    let h = self.blocks[b].transactions[t].inputs[i].prev_transaction_output_hash;
                    self.utxos.remove(&h);
                    proof {
                        let ins = self.blocks@[b as int].transactions@[t as int].inputs@;
                        assert(ins.take(i + 1).drop_last() =~= ins.take(i as int));
                    }
                    i = i + 1;
                }
                let ghost after_inputs = self.utxos@;
                let no = self.blocks[b].transactions[t].outputs.len();
                let key = self.blocks[b].transactions[t].digest;
                let mut o: usize = 0;
                while o < no
                    invariant
                        b < nb,
                        nb == self.blocks@.len(),
                        t < nt,
                        nt == self.blocks@[b as int].transactions@.len(),
                        o <= no,
                        no == self.blocks@[b as int].transactions@[t as int].outputs@.len(),
                        key == self.blocks@[b as int].transactions@[t as int].digest,
                        self.blocks@ == old(self).blocks@,
                        self.target == old(self).target,
                        self.mempool@ == old(self).mempool@,
                        self.utxos@ == insert_outputs(
                            after_inputs,
                            key,
                            self.blocks@[b as int].transactions@[t as int].outputs@.take(o as int),
                        ),
                    decreases no - o,
                {
                    let out = self.blocks[b].transactions[t].outputs[o];
                    self.utxos.insert(key, false, out);
                    proof {
                        let outs = self.blocks@[b as int].transactions@[t as int].outputs@;
                        assert(outs.take(o + 1).drop_last() =~= outs.take(o as int));
                    }
                    o = o + 1;
                }
                proof {
                    let txs = self.blocks@[b as int].transactions@;
                    let tx = txs[t as int];
                    assert(tx.inputs@.take(ni as int) =~= tx.inputs@);
                    assert(tx.outputs@.take(no as int) =~= tx.outputs@);
                    assert(txs.take(t + 1).drop_last() =~= txs.take(t as int));
                }
                t = t + 1;
            }
            proof {
                let txs = self.blocks@[b as int].transactions@;
                assert(txs.take(nt as int) =~= txs);
                assert(self.blocks@.take(b + 1).drop_last() =~= self.blocks@.take(b as int));
            }
            b = b + 1;
        }
        proof {
            assert(self.blocks@.take(nb as int) =~= self.blocks@);
        }
    }

    /// Every 50 blocks, scales the target by the time the last 50 blocks took
    /// over the ideal 500 seconds (through `bigdecimal`), keeps the result
    /// within a quarter and four times the old target, and caps it at the
    /// easiest target. Otherwise the target stays.
    pub fn try_adjust_target(&mut self)
        requires
            retarget_defined(old(self)@.blocks, old(self)@.target),
        ensures
            final(self)@.blocks == old(self)@.blocks,
            final(self)@.utxos == old(self)@.utxos,
            final(self)@.mempool == old(self)@.mempool,
            final(self)@.target@ == retargeted(old(self)@.blocks, old(self)@.target),
            !retarget_due(old(self)@.blocks) || interval_elapsed(old(self)@.blocks) >= 0
                ==> final(self)@.target@ == scaled_retarget(old(self)@.blocks, old(self)@.target),
            old(self)@.target@ <= crate::spec_min_target() ==> {
                &&& final(self)@.target@ <= crate::spec_min_target()
                &&& old(self)@.target@ / 4 <= final(self)@.target@ <= old(self)@.target@ * 4
            },
    {
        proof {
            crate::laws::lemma_retarget_bounds(self@.blocks, self.target);
        }
        if self.blocks.len() == 0 {
            return;
        }
        if self.blocks.len() % (crate::DIFFICULTY_UPDATE_INTERVAL as usize) != 0 {
            return;
        }
        let n = self.blocks.len();
        let start = self.blocks[n - crate::DIFFICULTY_UPDATE_INTERVAL as usize].header.timestamp;
        let end = self.blocks[n - 1].header.timestamp;
        self.target = adjust_target(&start, &end, self.target);
    }

    /// Whether retargeting this chain now would complete.
    pub fn is_retarget_defined(&self) -> (r: bool)
        ensures
            r == retarget_defined(self@.blocks, self@.target),
            retarget_due(self@.blocks) && interval_elapsed(self@.blocks) >= 0 ==> r
                == scaled_adjustment_defined(self@.target@, interval_elapsed(self@.blocks)),
    {
        if self.blocks.len() == 0 || self.blocks.len() % (crate::DIFFICULTY_UPDATE_INTERVAL as usize) != 0 {
            return true;
        }
        let n = self.blocks.len();
        let start = self.blocks[n - crate::DIFFICULTY_UPDATE_INTERVAL as usize].header.timestamp;
        let end = self.blocks[n - 1].header.timestamp;
        is_adjustment_defined(&start, &end, self.target)
    }

    /// Retargets when that completes, and reports whether it did; otherwise
    /// the chain is left as it was.
    pub fn try_adjust_target_checked(&mut self) -> (r: bool)
        ensures
            r == retarget_defined(old(self)@.blocks, old(self)@.target),
            final(self)@.blocks == old(self)@.blocks,
            final(self)@.utxos == old(self)@.utxos,
            final(self)@.mempool == old(self)@.mempool,
            final(self)@.target@ == (if r {
                retargeted(old(self)@.blocks, old(self)@.target)
            } else {
                old(self)@.target@
            }),
            old(self)@.target@ <= crate::spec_min_target() ==> {
                &&& final(self)@.target@ <= crate::spec_min_target()
                &&& old(self)@.target@ / 4 <= final(self)@.target@ <= old(self)@.target@ * 4
            },
    {
        proof {
            crate::laws::lemma_retarget_bounds(self@.blocks, self@.target);
        }
        if self.is_retarget_defined() {
            self.try_adjust_target();
            true
        } else {
            false
        }
    }

    fn check_block(
        &self,
        block: &Block,
        calculated_merkle_root: &MerkleRoot,
        transactions_verdict: &Result<(), BtcLibError>,
    ) -> (r: Option<BtcLibError>)
        ensures
            r == block_rejection(self@, *block, *calculated_merkle_root, *transactions_verdict),
    {
        if self.blocks.len() == 0 {
            if block.header.prev_block_hash != types::Hash::zero() {
                return Some(BtcLibError::InvalidBlock);
            }
        } else {
            let last_block = &self.blocks[self.blocks.len() - 1];
            if block.header.prev_block_hash != last_block.hash() {
                return Some(BtcLibError::InvalidBlock);
            }
            if !block.header.hash().matches_target(block.header.target) {
                return Some(BtcLibError::InvalidBlock);
            }
            if *calculated_merkle_root != block.header.merkle_root {
                return Some(BtcLibError::InvalidMerkleRoot);
            }
            if block.header.timestamp.is_not_after(&last_block.header.timestamp) {
                return Some(BtcLibError::InvalidBlock);
            }
            match transactions_verdict {
                Err(e) => {
                    return Some(*e);
                },
                Ok(_) => {},
            }
        }
        None
    }

    fn contains_transaction(block: &Block, h: &types::Hash) -> (r: bool)
        ensures
            r == block_has_transaction(*block, *h),
    {
        let n = block.transactions.len();
        let mut j: usize = 0;
        while j < n
            invariant
                j <= n,
                n == block.transactions@.len(),
                forall|k: int| 0 <= k < j ==> block.transactions@[k].digest != *h,
            decreases n - j,
        {
            if block.transactions[j].digest == *h {
                return true;
            }
            j = j + 1;
        }
        false
    }

    /// Adds a block to the chain, or refuses it.
    ///
    /// `calculated_merkle_root` is the Merkle root computed over the block's
    /// transactions, and `transactions_verdict` the outcome of checking those
    /// transactions against this chain's unspent outputs at its current
    /// height; both are consulted only when the chain already has blocks.
    /// An accepted block leaves the pool without the transactions it contains,
    /// is appended, and the target is retargeted.
    pub fn add_block(
        &mut self,
        block: Block,
        calculated_merkle_root: MerkleRoot,
        transactions_verdict: Result<(), BtcLibError>,
    ) -> (r: Result<(), BtcLibError>)
        requires
            block_addition_defined(old(self)@, block, calculated_merkle_root, transactions_verdict),
        ensures
            block_added(old(self)@, final(self)@, block, calculated_merkle_root, transactions_verdict, r),
            crate::laws::chain_hash_linked(old(self)@.blocks) ==> crate::laws::chain_hash_linked(
                final(self)@.blocks,
            ),
            crate::laws::chain_linked(old(self)@.blocks) ==> crate::laws::chain_linked(
                final(self)@.blocks,
            ),
    {
        let ghost pre = self@;
        let r = self.apply_block(block, calculated_merkle_root, transactions_verdict);
        proof {
            if crate::laws::chain_hash_linked(pre.blocks) {
                crate::laws::lemma_add_block_keeps_chain_hash_linked(
                    pre,
                    self@,
                    block,
                    calculated_merkle_root,
                    transactions_verdict,
                    r,
                );
            }
            if crate::laws::chain_linked(pre.blocks) {
                crate::laws::lemma_add_block_keeps_chain_linked(
                    pre,
                    self@,
                    block,
                    calculated_merkle_root,
                    transactions_verdict,
                    r,
                );
            }
        }
        r
    }

    fn apply_block(
        &mut self,
        block: Block,
        calculated_merkle_root: MerkleRoot,
        transactions_verdict: Result<(), BtcLibError>,
    ) -> (r: Result<(), BtcLibError>)
        requires
            block_addition_defined(old(self)@, block, calculated_merkle_root, transactions_verdict),
        ensures
            block_added(old(self)@, final(self)@, block, calculated_merkle_root, transactions_verdict, r),
    {
        match self.check_block(&block, &calculated_merkle_root, &transactions_verdict) {
            Some(e) => {
                return Err(e);
            },
            None => {},
        }
        let ghost keep = kept_after_block(block);
        let mut pool: Vec<(Timestamp, Transaction)> = Vec::new();
        std::mem::swap(&mut pool, &mut self.mempool);
        let ghost m0 = pool@;
        let mut kept: Vec<(Timestamp, Transaction)> = Vec::new();
        let ghost mut k: int = 0;
        while pool.len() > 0
            invariant
                0 <= k <= m0.len(),
                pool@ == m0.skip(k),
                kept@ == m0.take(k).filter(keep),
                keep == kept_after_block(block),
            decreases pool@.len(),
        {
            let entry = pool.remove(0);
            proof {
                reveal_with_fuel(Seq::<_>::filter, 1);
                assert(m0.take(k + 1).drop_last() =~= m0.take(k));
                assert(m0.skip(k + 1) =~= m0.skip(k).remove(0));
            }
            if !Self::contains_transaction(&block, &entry.1.digest) {
                kept.push(entry);
            }
            proof {
                k = k + 1;
            }
        }
        proof {
            assert(m0.take(k) =~= m0);
        }
        self.mempool = kept;
        self.blocks.push(block);
        self.try_adjust_target();
        Ok(())
    }

    /// Whether adding this block would complete: true when the block is
    /// refused, or when retargeting the longer chain completes.
    pub fn is_block_addition_defined(
        &self,
        block: &Block,
        calculated_merkle_root: &MerkleRoot,
        transactions_verdict: &Result<(), BtcLibError>,
    ) -> (r: bool)
        ensures
            r == block_addition_defined(self@, *block, *calculated_merkle_root, *transactions_verdict),
    {
        if self.check_block(block, calculated_merkle_root, transactions_verdict).is_some() {
            return true;
        }
        let ghost longer = self@.blocks.push(*block);
        let n = self.blocks.len();
        let interval = crate::DIFFICULTY_UPDATE_INTERVAL as usize;
        if n >= usize::MAX || (n + 1) % interval != 0 {
            return true;
        }
        let start = if n + 1 - interval < n {
            self.blocks[n + 1 - interval].header.timestamp
        } else {
            block.header.timestamp
        };
        proof {
            assert(interval_start(longer) == start);
            assert(interval_end(longer) == block.header.timestamp);
        }
        is_adjustment_defined(&start, &block.header.timestamp, self.target)
    }

    /// Adds the block when that completes, as `add_block` does, and returns
    /// its result; returns `None`, leaving the chain as it was, when the
    /// block passes the checks but retargeting the longer chain would not
    /// complete.
    pub fn add_block_checked(
        &mut self,
        block: Block,
        calculated_merkle_root: MerkleRoot,
        transactions_verdict: Result<(), BtcLibError>,
    ) -> (r: Option<Result<(), BtcLibError>>)
        ensures
            match r {
                None => !block_addition_defined(
                    old(self)@,
                    block,
                    calculated_merkle_root,
                    transactions_verdict,
                ) && final(self)@ == old(self)@,
                Some(res) => block_addition_defined(
                    old(self)@,
                    block,
                    calculated_merkle_root,
                    transactions_verdict,
                ) && block_added(
                    old(self)@,
                    final(self)@,
                    block,
                    calculated_merkle_root,
                    transactions_verdict,
                    res,
                ),
            },
            crate::laws::chain_hash_linked(old(self)@.blocks) ==> crate::laws::chain_hash_linked(
                final(self)@.blocks,
            ),
            crate::laws::chain_linked(old(self)@.blocks) ==> crate::laws::chain_linked(
                final(self)@.blocks,
            ),
    {
        if !self.is_block_addition_defined(&block, &calculated_merkle_root, &transactions_verdict) {
            return None;
        }
        Some(self.add_block(block, calculated_merkle_root, transactions_verdict))
    }

    /// Drops the pooled transactions that are older than the maximum age at
    /// `now`, and clears the marks of the outputs their inputs spend.
    pub fn cleanup_mempool_at(&mut self, now: Timestamp)
        ensures
            mempool_cleaned(old(self)@, final(self)@, now),
    {
        let ghost u0 = self.utxos@;
        let ghost keep = young_at(now);
        let max_age: i128 = (crate::MAX_MEMPOOL_TRANSACTION_AGE as i128) * crate::types::NANOS_PER_SECOND;
        let now_nanos = now.as_nanos();
        let mut pool: Vec<PoolEntry> = Vec::new();
        std::mem::swap(&mut pool, &mut self.mempool);
        let ghost m0 = pool@;
        let mut kept: Vec<PoolEntry> = Vec::new();
        let ghost mut k: int = 0;
        proof {
            assert(expired_inputs(now, m0.take(0)) =~= Set::<types::Hash>::empty());
            lemma_unmarked_empty(u0);
        }
        while pool.len() > 0
            invariant
                0 <= k <= m0.len(),
                pool@ == m0.skip(k),
                kept@ == m0.take(k).filter(keep),
                keep == young_at(now),
                now_nanos == now.total_nanos(),
                max_age == crate::MAX_MEMPOOL_TRANSACTION_AGE * 1_000_000_000,
                self.utxos@ == unmarked(u0, expired_inputs(now, m0.take(k))),
                self.blocks@ == old(self).blocks@,
                self.target == old(self).target,
            decreases pool@.len(),
        {
            let entry = pool.remove(0);
            proof {
                reveal_with_fuel(Seq::<_>::filter, 1);
                assert(m0.take(k + 1).drop_last() =~= m0.take(k));
                assert(m0.skip(k + 1) =~= m0.skip(k).remove(0));
                assert(entry == m0[k]);
                lemma_expired_inputs_step(now, m0, k);
            }
            let ghost set_before = expired_inputs(now, m0.take(k));
            if now_nanos - entry.0.as_nanos() > max_age {
                let ni = entry.1.inputs.len();
                let mut t: usize = 0;
                proof {
                    assert(input_hashes(entry.1.inputs@.take(0)) =~= Set::<types::Hash>::empty());
                    assert(set_before.union(Set::<types::Hash>::empty()) =~= set_before);
                }
                while t < ni
                    invariant
                        t <= ni,
                        ni == entry.1.inputs@.len(),
                        self.blocks@ == old(self).blocks@,
                        self.target == old(self).target,
                        self.utxos@ == unmarked(
                            u0,
                            set_before.union(input_hashes(entry.1.inputs@.take(t as int))),
                        ),
                    decreases ni - t,
                {
                    let h = entry.1.inputs[t].prev_transaction_output_hash;
                    proof {
                        let sb = set_before.union(input_hashes(entry.1.inputs@.take(t as int)));
                        lemma_unmarked_insert(u0, sb, h);
                        lemma_input_hashes_step(entry.1.inputs@, t as int);
                        assert(sb.insert(h) =~= set_before.union(
                            input_hashes(entry.1.inputs@.take(t + 1)),
                        ));
                    }
                    self.utxos.unmark(&h);
                    t = t + 1;
                }
                proof {
                    assert(entry.1.inputs@.take(ni as int) =~= entry.1.inputs@);
                }
            } else {
                kept.push(entry);
                proof {
                    assert(set_before.union(Set::<types::Hash>::empty()) =~= set_before);
                }
            }
            proof {
                k = k + 1;
            }
        }
        proof {
            assert(m0.take(k) =~= m0);
        }
        self.mempool = kept;
    }

    /// Drops the pooled transactions older than the maximum age at the current
    /// time of the system clock, and clears the marks of the outputs their
    /// inputs spend.
    pub fn cleanup_mempool(&mut self)
        ensures
            exists|now: Timestamp| now.nanos < 1_000_000_000 && mempool_cleaned(old(self)@, final(self)@, now),
    {
        let now = utc_now();
        self.cleanup_mempool_at(now);
    }

    fn inputs_known_and_distinct(&self, transaction: &Transaction) -> (r: bool)
        ensures
            r == inputs_known_distinct(self@.utxos, *transaction),
    {
        let ghost ins = transaction.inputs@;
        let n = transaction.inputs.len();
        let mut i: usize = 0;
        while i < n
            invariant
                i <= n,
                n == ins.len(),
                ins == transaction.inputs@,
                forall|j: int| 0 <= j < i ==> self.utxos@.contains_key(
                    #[trigger] ins[j].prev_transaction_output_hash,
                ),
                forall|a: int, b: int|
                    0 <= a < b < i ==> ins[a].prev_transaction_output_hash
                        != ins[b].prev_transaction_output_hash,
            decreases n - i,
        {
            let h = transaction.inputs[i].prev_transaction_output_hash;
            if !self.utxos.contains_key(&h) {
                proof {
                    assert(!self.utxos@.contains_key(ins[i as int].prev_transaction_output_hash));
                    assert(!crate::mempool::inputs_known(self.utxos@, ins));
                }
                return false;
            }
            let mut j: usize = 0;
            while j < i
                invariant
                    j <= i,
                    i < n,
                    n == ins.len(),
                    ins == transaction.inputs@,
                    h == ins[i as int].prev_transaction_output_hash,
                    forall|t: int| 0 <= t < j ==> ins[t].prev_transaction_output_hash != h,
                decreases i - j,
            {
                if transaction.inputs[j].prev_transaction_output_hash == h {
                    proof {
                        assert(ins[j as int].prev_transaction_output_hash
                            == ins[i as int].prev_transaction_output_hash);
                    }
                    return false;
                }
                j = j + 1;
            }
            i = i + 1;
        }
        true
    }

    /// Offers a transaction to the pool at time `now` (see `mempool_added`).
    pub fn add_to_mempool_at(&mut self, transaction: Transaction, now: Timestamp) -> (r: Result<(), BtcLibError>)
        requires
            mempool_addition_defined(old(self)@, transaction),
        ensures
            mempool_added(old(self)@, final(self)@, transaction, now, r),
    {
        let ghost ins = transaction.inputs@;
        let n = transaction.inputs.len();
        if !self.inputs_known_and_distinct(&transaction) {
            return Err(BtcLibError::InvalidTransaction);
        }
        let ghost st0 = (self.utxos@, self.mempool@);
        let mut k: usize = 0;
        while k < n
            invariant
                k <= n,
                n == ins.len(),
                ins == transaction.inputs@,
                (self.utxos@, self.mempool@) == release_inputs(st0, ins.take(k as int)),
                self.blocks@ == old(self).blocks@,
                self.target == old(self).target,
            decreases n - k,
        {
            let h = transaction.inputs[k].prev_transaction_output_hash;
            proof {
                assert(ins.take(k + 1).drop_last() =~= ins.take(k as int));
                assert(ins.take(k + 1).last() == ins[k as int]);
            }
            match self.utxos.get(&h) {
                Some((true, _)) => {
                    let idx = find_producer(&self.mempool, &h);
                    if idx < self.mempool.len() {
                        unmark_spent(&mut self.utxos, &self.mempool[idx].1.inputs);
                        self.mempool.remove(idx);
                    } else {
                        self.utxos.unmark(&h);
                    }
                },
                _ => {},
            }
            k = k + 1;
        }
        proof {
            assert(ins.take(n as int) =~= ins);
            lemma_release_keeps_outputs(st0, ins);
            lemma_input_total_same(st0.0, self.utxos@, ins);
        }
        let all_inputs = input_value_sum(&self.utxos, &transaction.inputs);
        let all_outputs = output_value_sum(&transaction.outputs);
        if all_inputs < all_outputs {
            return Err(BtcLibError::InvalidTransaction);
        }
        self.mempool.push((now, transaction));
        sort_pool_by_fee(&mut self.mempool, &self.utxos);
        Ok(())
    }

    /// Whether pooling `transaction` completes (see `mempool_addition_defined`).
    /// The releases are worked out on a copy of the outputs and a list of
    /// pool positions; the chain itself is left as it is.
    pub fn is_mempool_addition_defined(&self, transaction: &Transaction) -> (r: bool)
        ensures
            r == mempool_addition_defined(self@, *transaction),
    {
        if !self.inputs_known_and_distinct(transaction) {
            return true;
        }
        let ghost ins = transaction.inputs@;
        let ghost st0 = (self.utxos@, self.mempool@);
        let n = transaction.inputs.len();
        let mut utxos = self.utxos.snapshot();
        let pn = self.mempool.len();
        let mut live: Vec<usize> = Vec::new();
        let mut p: usize = 0;
        while p < pn
            invariant
                p <= pn,
                pn == self.mempool@.len(),
                live@.len() == p,
                forall|j: int| 0 <= j < p ==> #[trigger] live@[j] == j,
            decreases pn - p,
        {
            live.push(p);
            p = p + 1;
        }
        proof {
            assert(picked(self.mempool@, live@) =~= self.mempool@);
            assert(ins.take(0) =~= Seq::<TransactionInput>::empty());
        }
        let mut k: usize = 0;
        while k < n
            invariant
                k <= n,
                n == ins.len(),
                ins == transaction.inputs@,
                st0 == (self.utxos@, self.mempool@),
                forall|j: int| 0 <= j < live@.len() ==> #[trigger] live@[j] < self.mempool@.len(),
                (utxos@, picked(self.mempool@, live@)) == release_inputs(st0, ins.take(k as int)),
            decreases n - k,
        {
            let h = transaction.inputs[k].prev_transaction_output_hash;
            proof {
                assert(ins.take(k + 1).drop_last() =~= ins.take(k as int));
                assert(ins.take(k + 1).last() == ins[k as int]);
            }
            let ghost m = picked(self.mempool@, live@);
            match utxos.get(&h) {
                Some((true, _)) => {
                    let idx = find_producer_among(&self.mempool, &live, &h);
                    if idx < live.len() {
                        let pos = live[idx];
                        assert(m[idx as int] == self.mempool@[pos as int]);
                        unmark_spent(&mut utxos, &self.mempool[pos].1.inputs);
                        live.remove(idx);
                        proof {
                            assert(picked(self.mempool@, live@) =~= m.remove(idx as int));
                        }
                    } else {
                        utxos.unmark(&h);
                    }
                },
                _ => {},
            }
            k = k + 1;
        }
        proof {
            assert(ins.take(n as int) =~= ins);
            lemma_release_keeps_outputs(st0, ins);
            lemma_input_total_same(st0.0, utxos@, ins);
        }
        let ghost released = release_inputs(st0, ins);
        let all_inputs = checked_input_value_sum(&utxos, &transaction.inputs);
        let all_outputs = checked_output_value_sum(&transaction.outputs);
        match (all_inputs, all_outputs) {
            (Some(a), Some(b)) => {
                if a >= b && live.len() >= 1 {
                    let ln = live.len();
                    let mut j: usize = 0;
                    while j < ln
                        invariant
                            j <= ln,
                            ln == live@.len(),
                            forall|t: int| 0 <= t < live@.len() ==> #[trigger] live@[t] < self.mempool@.len(),
                            released == (utxos@, picked(self.mempool@, live@)),
                            released == release_inputs((self@.utxos, self@.mempool), transaction.inputs@),
                            inputs_known_distinct(self@.utxos, *transaction),
                            a == input_total(released.0, transaction.inputs@),
                            b == output_total(transaction.outputs@),
                            a >= b,
                            ln >= 1,
                            forall|t: int|
                                0 <= t < j ==> fee_defined(utxos@, #[trigger] released.1[t].1),
                        decreases ln - j,
                    {
                        let pos = live[j];
                        assert(released.1[j as int] == self.mempool@[pos as int]);
                        if !is_fee_defined(&utxos, &self.mempool[pos].1) {
                            assert(!fee_defined(released.0, released.1[j as int].1));
                            return false;
                        }
                        j = j + 1;
                    }
                    true
                } else {
                    true
                }
            },
            _ => false,
        }
    }

    /// Offers a transaction to the pool at time `now` when pooling it
    /// completes (see `mempool_added`); otherwise returns `None` and leaves
    /// the chain as it is.
    pub fn add_to_mempool_checked(&mut self, transaction: Transaction, now: Timestamp) -> (r: Option<
        Result<(), BtcLibError>,
    >)
        ensures
            match r {
                None => !mempool_addition_defined(old(self)@, transaction) && final(self)@ == old(
                    self,
                )@,
                Some(res) => mempool_addition_defined(old(self)@, transaction) && mempool_added(
                    old(self)@,
                    final(self)@,
                    transaction,
                    now,
                    res,
                ),
            },
            crate::laws::pool_fees_defined(old(self)@) && (inputs_known_distinct(
                old(self)@.utxos,
                transaction,
            ) ==> input_total(old(self)@.utxos, transaction.inputs@) <= u64::MAX && output_total(
                transaction.outputs@,
            ) <= u64::MAX) ==> r is Some && crate::laws::pool_fees_defined(final(self)@),
    {
        let ghost pre = self@;
        proof {
            if crate::laws::pool_fees_defined(pre) && (inputs_known_distinct(pre.utxos, transaction)
                ==> input_total(pre.utxos, transaction.inputs@) <= u64::MAX && output_total(
                transaction.outputs@,
            ) <= u64::MAX) {
                crate::laws::lemma_pooling_defined(pre, transaction);
            }
        }
        if !self.is_mempool_addition_defined(&transaction) {
            return None;
        }
        let ghost tx = transaction;
        let res = self.add_to_mempool_at(transaction, now);
        proof {
            if crate::laws::pool_fees_defined(pre) && (inputs_known_distinct(pre.utxos, tx)
                ==> input_total(pre.utxos, tx.inputs@) <= u64::MAX && output_total(tx.outputs@)
                <= u64::MAX) {
                crate::laws::lemma_pooling_keeps_fees_defined(pre, self@, tx, now, res);
            }
        }
        Some(res)
    }

    /// Offers a transaction to the pool, stamped with the current time of the
    /// system clock (see `mempool_added`).
    pub fn add_to_mempool(&mut self, transaction: Transaction) -> (r: Result<(), BtcLibError>)
        requires
            mempool_addition_defined(old(self)@, transaction),
        ensures
            exists|now: Timestamp|
                now.nanos < 1_000_000_000 && mempool_added(old(self)@, final(self)@, transaction, now, r),
    {
        let now = utc_now();
        self.add_to_mempool_at(transaction, now)
    }
}

} // verus!
