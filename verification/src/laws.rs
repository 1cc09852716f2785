use vstd::prelude::*;
use vstd::arithmetic::div_mod::{lemma_div_denominator, lemma_fundamental_div_mod};
use vstd::arithmetic::power2::{lemma_pow2_pos, lemma_pow2_unfold, pow2};

use crate::blockchain::{
    insert_outputs, remove_inputs, replay_blocks, replay_transaction, replay_transactions,
    block_added, block_has_transaction, retarget_defined, block_reward, halvings, interval_elapsed, kept_after_block,
    mempool_added, mempool_addition_defined, mempool_cleaned, retarget_due, retargeted, scaled_retarget, young_at, ChainState,
};
use crate::difficulty::{
    adjusted_target_value, scaled_adjusted_target, scaled_adjustment_defined,
    scaled_target_value,
};
use crate::error::BtcLibError;
use crate::mempool::{
    expired, fee, fee_defined, input_total, inputs_known, inputs_known_distinct, insert_position,
    lemma_input_total_same, lemma_release_keeps_outputs, output_total, release_inputs, release_step,
    same_outputs, sort_by_fee, PoolEntry, UtxoMap,
};
use crate::types::{
    zero_hash, Block, MerkleRoot, Timestamp, Transaction, TransactionInput, TransactionOutput,
};

verus! {

/// The blocks are hash-linked in time: the first names the zero digest as its
/// predecessor, and every later block names its predecessor's digest and is
/// strictly later than it.
pub open spec fn chain_hash_linked(blocks: Seq<Block>) -> bool {
    &&& blocks.len() > 0 ==> blocks[0].header.prev_block_hash == zero_hash()
    &&& forall|i: int|
        0 < i < blocks.len() ==> {
            &&& #[trigger] blocks[i].header.prev_block_hash == blocks[i - 1].digest
            &&& !blocks[i].header.timestamp.not_after(blocks[i - 1].header.timestamp)
        }
}

/// The blocks form a valid chain: they are hash-linked in time, and every
/// block after the first has a header digest within its own target.
pub open spec fn chain_linked(blocks: Seq<Block>) -> bool {
    &&& chain_hash_linked(blocks)
    &&& forall|i: int|
        0 < i < blocks.len() ==> #[trigger] blocks[i].header.digest.0@ <= blocks[i].header.target@
}

/// A chain state is sound: its blocks are linked and its target is no easier
/// than the easiest target.
pub open spec fn chain_sound(c: ChainState) -> bool {
    &&& chain_linked(c.blocks)
    &&& c.target@ <= crate::spec_min_target()
}

/// A chain with no blocks at a target no easier than the easiest one, as
/// `Blockchain::new` makes it, is sound.
pub proof fn lemma_empty_chain_sound(c: ChainState)
    requires
        c.blocks.len() == 0,
        c.target@ <= crate::spec_min_target(),
    ensures
        chain_sound(c),
{
}

/// Retargeting keeps a sound chain sound.
pub proof fn lemma_retarget_keeps_chain_sound(pre: ChainState, post: ChainState)
    requires
        chain_sound(pre),
        post.blocks == pre.blocks,
        post.target@ == retargeted(pre.blocks, pre.target),
    ensures
        chain_sound(post),
{
    lemma_retarget_bounds(pre.blocks, pre.target);
}

/// The reward halves every 210 blocks.
pub proof fn lemma_reward_halves(height: nat)
    ensures
        block_reward(height + 210) == block_reward(height) / 2,
{
    let k = halvings(height);
    assert(halvings(height + 210) == k + 1) by {
        lemma_fundamental_div_mod(height as int, 210);
        lemma_fundamental_div_mod((height + 210) as int, 210);
        vstd::arithmetic::div_mod::lemma_div_plus_one(height as int, 210);
    }
    lemma_pow2_unfold(k + 1);
    lemma_pow2_pos(k);
    lemma_div_denominator(5_000_000_000, pow2(k) as int, 2);
    assert(pow2(k) * 2 == pow2(k + 1));
}

/// Whatever number the adjustment text reads as, the new target is capped at
/// the easiest target, and, from a target that is not easier than that, it
/// lies between a quarter and four times the old target.
pub proof fn lemma_adjusted_target_bounds(current: nat, text: Seq<u8>)
    ensures
        adjusted_target_value(current, text) <= crate::spec_min_target(),
        current <= crate::spec_min_target() ==> current / 4 <= adjusted_target_value(current, text)
            <= current * 4,
{
}

/// Retargeting leaves the target alone unless a retarget is due, never makes
/// it easier than the easiest target, and, from a sound target, moves it by at
/// most a factor of four either way.
pub proof fn lemma_retarget_bounds(blocks: Seq<Block>, target: crate::u256::U256)
    ensures
        !retarget_due(blocks) ==> retargeted(blocks, target) == target@,
        retarget_due(blocks) ==> retargeted(blocks, target) <= crate::spec_min_target(),
        target@ <= crate::spec_min_target() ==> target@ / 4 <= retargeted(blocks, target) <= target@
            * 4,
{
    if retarget_due(blocks) {
        let text = crate::difficulty::adjustment_text(
            crate::blockchain::interval_start(blocks),
            crate::blockchain::interval_end(blocks),
            target@,
        );
        lemma_adjusted_target_bounds(target@, text);
    }
}

/// Adding a block, accepted or refused, keeps a chain sound.
pub proof fn lemma_add_block_keeps_chain_sound(
    pre: ChainState,
    post: ChainState,
    block: Block,
    calculated_merkle_root: MerkleRoot,
    transactions_verdict: Result<(), BtcLibError>,
    r: Result<(), BtcLibError>,
)
    requires
        chain_sound(pre),
        block_added(pre, post, block, calculated_merkle_root, transactions_verdict, r),
    ensures
        chain_sound(post),
{
    if r is Ok {
        let longer = pre.blocks.push(block);
        assert(post.blocks == longer);
        lemma_retarget_bounds(longer, pre.target);
    }
    lemma_add_block_keeps_chain_linked(pre, post, block, calculated_merkle_root, transactions_verdict, r);
}

/// After a block is accepted, the pool holds none of the block's transactions,
/// and every entry left was in the pool before.
pub proof fn lemma_block_clears_pool(
    pre: ChainState,
    post: ChainState,
    block: Block,
    calculated_merkle_root: MerkleRoot,
    transactions_verdict: Result<(), BtcLibError>,
    r: Result<(), BtcLibError>,
)
    requires
        block_added(pre, post, block, calculated_merkle_root, transactions_verdict, r),
        r is Ok,
    ensures
        forall|i: int|
            0 <= i < post.mempool.len() ==> !block_has_transaction(
                block,
                #[trigger] post.mempool[i].1.digest,
            ) && pre.mempool.contains(post.mempool[i]),
{
    broadcast use vstd::seq_lib::group_filter_ensures;

    let keep = kept_after_block(block);
    assert forall|i: int| 0 <= i < post.mempool.len() implies !block_has_transaction(
        block,
        #[trigger] post.mempool[i].1.digest,
    ) && pre.mempool.contains(post.mempool[i]) by {
        assert(keep(pre.mempool.filter(keep)[i]));
        assert(pre.mempool.filter(keep).contains(post.mempool[i]));
        pre.mempool.lemma_filter_contains_rev(keep, post.mempool[i]);
    }
}

/// After clearing the pool at `now`, no entry left has expired, and every
/// entry left was in the pool before.
pub proof fn lemma_cleanup_leaves_young(pre: ChainState, post: ChainState, now: Timestamp)
    requires
        mempool_cleaned(pre, post, now),
    ensures
        forall|i: int|
            0 <= i < post.mempool.len() ==> !expired(now, #[trigger] post.mempool[i])
                && pre.mempool.contains(post.mempool[i]),
        post.blocks == pre.blocks,
        post.target == pre.target,
        post.utxos.dom() == pre.utxos.dom(),
{
    broadcast use vstd::seq_lib::group_filter_ensures;

    let keep = young_at(now);
    assert forall|i: int| 0 <= i < post.mempool.len() implies !expired(
        now,
        #[trigger] post.mempool[i],
    ) && pre.mempool.contains(post.mempool[i]) by {
        assert(keep(pre.mempool.filter(keep)[i]));
        assert(pre.mempool.filter(keep).contains(post.mempool[i]));
        pre.mempool.lemma_filter_contains_rev(keep, post.mempool[i]);
    }
    assert(post.utxos.dom() =~= pre.utxos.dom());
}

/// The pool entries are in ascending order of miner fee.
pub open spec fn fee_sorted(s: Seq<PoolEntry>, u: UtxoMap) -> bool {
    forall|i: int, j: int| 0 <= i < j < s.len() ==> fee(u, #[trigger] s[i].1) <= fee(u, #[trigger] s[j].1)
}

proof fn lemma_insert_position_splits(s: Seq<PoolEntry>, u: UtxoMap, f: int)
    requires
        fee_sorted(s, u),
    ensures
        0 <= insert_position(s, u, f) <= s.len(),
        forall|k: int| 0 <= k < insert_position(s, u, f) ==> fee(u, #[trigger] s[k].1) <= f,
        forall|k: int| insert_position(s, u, f) <= k < s.len() ==> fee(u, #[trigger] s[k].1) > f,
    decreases s.len(),
{
    if s.len() > 0 {
        let p = s.drop_last();
        assert(fee_sorted(p, u)) by {
            assert forall|i: int, j: int| 0 <= i < j < p.len() implies fee(u, #[trigger] p[i].1) <= fee(
                u,
                #[trigger] p[j].1,
            ) by {
                assert(p[i] == s[i]);
                assert(p[j] == s[j]);
            }
        }
        lemma_insert_position_splits(p, u, f);
        if fee(u, s.last().1) > f {
            assert forall|k: int| 0 <= k < insert_position(s, u, f) implies fee(u, #[trigger] s[k].1) <= f by {
                assert(s[k] == p[k]);
            }
            assert forall|k: int| insert_position(s, u, f) <= k < s.len() implies fee(u, #[trigger] s[k].1) > f by {
                if k < p.len() {
                    assert(s[k] == p[k]);
                }
            }
        } else {
            assert forall|k: int| 0 <= k < s.len() implies fee(u, #[trigger] s[k].1) <= f by {
                if k < s.len() - 1 {
                    assert(fee(u, s[k].1) <= fee(u, s[s.len() - 1].1));
                }
            }
        }
    }
}

/// Sorting the pool by fee yields entries in ascending order of miner fee,
/// holding exactly the entries it was given.
pub proof fn lemma_sort_by_fee_sorted(s: Seq<PoolEntry>, u: UtxoMap)
    ensures
        fee_sorted(sort_by_fee(s, u), u),
        sort_by_fee(s, u).to_multiset() == s.to_multiset(),
    decreases s.len(),
{
    broadcast use vstd::seq_lib::to_multiset_insert;

    if s.len() > 0 {
        let sorted = sort_by_fee(s.drop_last(), u);
        lemma_sort_by_fee_sorted(s.drop_last(), u);
        let f = fee(u, s.last().1);
        let p = insert_position(sorted, u, f);
        lemma_insert_position_splits(sorted, u, f);
        let r = sorted.insert(p, s.last());
        assert(r == sort_by_fee(s, u));
        assert forall|i: int, j: int| 0 <= i < j < r.len() implies fee(u, #[trigger] r[i].1) <= fee(
            u,
            #[trigger] r[j].1,
        ) by {
            if j < p {
                assert(r[i] == sorted[i] && r[j] == sorted[j]);
            } else if j == p {
                assert(r[i] == sorted[i]);
            } else if i < p {
                assert(r[i] == sorted[i] && r[j] == sorted[j - 1]);
            } else if i == p {
                assert(r[j] == sorted[j - 1]);
            } else {
                assert(r[i] == sorted[i - 1] && r[j] == sorted[j - 1]);
            }
        }
        assert(s.drop_last().push(s.last()) =~= s);
        vstd::seq_lib::to_multiset_build(s.drop_last(), s.last());
    }
}

/// After a transaction is accepted into the pool, the pool is in ascending
/// order of miner fee and holds the entries that the releases left, plus the
/// new entry.
pub proof fn lemma_accepted_pool_sorted(
    pre: ChainState,
    post: ChainState,
    tx: Transaction,
    now: Timestamp,
    r: Result<(), BtcLibError>,
)
    requires
        mempool_added(pre, post, tx, now, r),
        r is Ok,
    ensures
        fee_sorted(post.mempool, post.utxos),
        post.mempool.to_multiset() == release_inputs((pre.utxos, pre.mempool), tx.inputs@).1.push(
            (now, tx),
        ).to_multiset(),
        post.blocks == pre.blocks,
        post.target == pre.target,
{
    let released = release_inputs((pre.utxos, pre.mempool), tx.inputs@);
    lemma_sort_by_fee_sorted(released.1.push((now, tx)), released.0);
}

/// Adding a block, accepted or refused, keeps the blocks hash-linked in
/// time: the first names the zero digest, and each later one names its
/// predecessor and is later than it.
pub proof fn lemma_add_block_keeps_chain_hash_linked(
    pre: ChainState,
    post: ChainState,
    block: Block,
    calculated_merkle_root: MerkleRoot,
    transactions_verdict: Result<(), BtcLibError>,
    r: Result<(), BtcLibError>,
)
    requires
        chain_hash_linked(pre.blocks),
        block_added(pre, post, block, calculated_merkle_root, transactions_verdict, r),
    ensures
        chain_hash_linked(post.blocks),
{
    if r is Ok {
        let longer = pre.blocks.push(block);
        assert forall|i: int| 0 < i < longer.len() implies {
            &&& #[trigger] longer[i].header.prev_block_hash == longer[i - 1].digest
            &&& !longer[i].header.timestamp.not_after(longer[i - 1].header.timestamp)
        } by {
            if i < pre.blocks.len() {
                assert(longer[i] == pre.blocks[i]);
                assert(longer[i - 1] == pre.blocks[i - 1]);
            } else {
                assert(longer[i] == block);
                assert(longer[i - 1] == pre.blocks.last());
            }
        }
        if pre.blocks.len() == 0 {
            assert(longer[0] == block);
        } else {
            assert(longer[0] == pre.blocks[0]);
        }
    }
}

/// Adding a block, accepted or refused, keeps the blocks linked: hash-linked
/// in time, and each block after the first within its own target.
pub proof fn lemma_add_block_keeps_chain_linked(
    pre: ChainState,
    post: ChainState,
    block: Block,
    calculated_merkle_root: MerkleRoot,
    transactions_verdict: Result<(), BtcLibError>,
    r: Result<(), BtcLibError>,
)
    requires
        chain_linked(pre.blocks),
        block_added(pre, post, block, calculated_merkle_root, transactions_verdict, r),
    ensures
        chain_linked(post.blocks),
{
    lemma_add_block_keeps_chain_hash_linked(pre, post, block, calculated_merkle_root, transactions_verdict, r);
    if r is Ok {
        let longer = pre.blocks.push(block);
        assert forall|i: int| 0 < i < longer.len() implies #[trigger] longer[i].header.digest.0@
            <= longer[i].header.target@ by {
            if i < pre.blocks.len() {
                assert(longer[i] == pre.blocks[i]);
            } else {
                assert(longer[i] == block);
            }
        }
    }
}

/// Two maps hold the same thing under `k`: both nothing, or the same value.
pub open spec fn agree_at(a: UtxoMap, b: UtxoMap, k: crate::types::Hash) -> bool {
    &&& a.contains_key(k) == b.contains_key(k)
    &&& a.contains_key(k) ==> a[k] == b[k]
}

/// Of an update that takes `u1` to `r1` and `u2` to `r2`: under `k` it either
/// writes the same thing into both results, or leaves both inputs as they were.
pub open spec fn settles_or_keeps(
    u1: UtxoMap,
    u2: UtxoMap,
    r1: UtxoMap,
    r2: UtxoMap,
    k: crate::types::Hash,
) -> bool {
    agree_at(r1, r2, k) || (agree_at(r1, u1, k) && agree_at(r2, u2, k))
}

proof fn lemma_settles_compose(
    u1: UtxoMap,
    u2: UtxoMap,
    m1: UtxoMap,
    m2: UtxoMap,
    r1: UtxoMap,
    r2: UtxoMap,
    k: crate::types::Hash,
)
    requires
        settles_or_keeps(u1, u2, m1, m2, k),
        settles_or_keeps(m1, m2, r1, r2, k),
    ensures
        settles_or_keeps(u1, u2, r1, r2, k),
{
}

proof fn lemma_remove_inputs_settles(u1: UtxoMap, u2: UtxoMap, ins: Seq<TransactionInput>, k: crate::types::Hash)
    ensures
        settles_or_keeps(u1, u2, remove_inputs(u1, ins), remove_inputs(u2, ins), k),
    decreases ins.len(),
{
    if ins.len() > 0 {
        let p = ins.drop_last();
        lemma_remove_inputs_settles(u1, u2, p, k);
        let h = ins.last().prev_transaction_output_hash;
        lemma_settles_compose(
            u1,
            u2,
            remove_inputs(u1, p),
            remove_inputs(u2, p),
            remove_inputs(u1, p).remove(h),
            remove_inputs(u2, p).remove(h),
            k,
        );
    }
}

proof fn lemma_insert_outputs_settles(
    u1: UtxoMap,
    u2: UtxoMap,
    key: crate::types::Hash,
    outs: Seq<TransactionOutput>,
    k: crate::types::Hash,
)
    ensures
        settles_or_keeps(u1, u2, insert_outputs(u1, key, outs), insert_outputs(u2, key, outs), k),
    decreases outs.len(),
{
    if outs.len() > 0 {
        let p = outs.drop_last();
        lemma_insert_outputs_settles(u1, u2, key, p, k);
        let v = (false, outs.last());
        lemma_settles_compose(
            u1,
            u2,
            insert_outputs(u1, key, p),
            insert_outputs(u2, key, p),
            insert_outputs(u1, key, p).insert(key, v),
            insert_outputs(u2, key, p).insert(key, v),
            k,
        );
    }
}

proof fn lemma_replay_transaction_settles(u1: UtxoMap, u2: UtxoMap, tx: Transaction, k: crate::types::Hash)
    ensures
        settles_or_keeps(u1, u2, replay_transaction(u1, tx), replay_transaction(u2, tx), k),
{
    let m1 = remove_inputs(u1, tx.inputs@);
    let m2 = remove_inputs(u2, tx.inputs@);
    lemma_remove_inputs_settles(u1, u2, tx.inputs@, k);
    lemma_insert_outputs_settles(m1, m2, tx.digest, tx.outputs@, k);
    lemma_settles_compose(
        u1,
        u2,
        m1,
        m2,
        replay_transaction(u1, tx),
        replay_transaction(u2, tx),
        k,
    );
}

proof fn lemma_replay_transactions_settles(u1: UtxoMap, u2: UtxoMap, txs: Seq<Transaction>, k: crate::types::Hash)
    ensures
        settles_or_keeps(u1, u2, replay_transactions(u1, txs), replay_transactions(u2, txs), k),
    decreases txs.len(),
{
    if txs.len() > 0 {
        let p = txs.drop_last();
        lemma_replay_transactions_settles(u1, u2, p, k);
        let m1 = replay_transactions(u1, p);
        let m2 = replay_transactions(u2, p);
        lemma_replay_transaction_settles(m1, m2, txs.last(), k);
        lemma_settles_compose(
            u1,
            u2,
            m1,
            m2,
            replay_transaction(m1, txs.last()),
            replay_transaction(m2, txs.last()),
            k,
        );
    }
}

proof fn lemma_replay_blocks_settles(u1: UtxoMap, u2: UtxoMap, blocks: Seq<Block>, k: crate::types::Hash)
    ensures
        settles_or_keeps(u1, u2, replay_blocks(u1, blocks), replay_blocks(u2, blocks), k),
    decreases blocks.len(),
{
    if blocks.len() > 0 {
        let p = blocks.drop_last();
        lemma_replay_blocks_settles(u1, u2, p, k);
        let m1 = replay_blocks(u1, p);
        let m2 = replay_blocks(u2, p);
        let txs = blocks.last().transactions@;
        lemma_replay_transactions_settles(m1, m2, txs, k);
        lemma_settles_compose(
            u1,
            u2,
            m1,
            m2,
            replay_transactions(m1, txs),
            replay_transactions(m2, txs),
            k,
        );
    }
}

/// Rebuilding the unspent outputs twice gives what rebuilding once gives:
/// every step of the replay either stores a fixed value under a key or
/// deletes it, so a second replay over the result changes nothing.
pub proof fn lemma_rebuild_utxos_idempotent(u: UtxoMap, blocks: Seq<Block>)
    ensures
        replay_blocks(replay_blocks(u, blocks), blocks) == replay_blocks(u, blocks),
{
    let once = replay_blocks(u, blocks);
    let twice = replay_blocks(once, blocks);
    assert forall|k: crate::types::Hash| #[trigger] agree_at(twice, once, k) by {
        lemma_replay_blocks_settles(u, once, blocks, k);
    }
    assert forall|k: crate::types::Hash| twice.contains_key(k) <==> once.contains_key(k) by {
        assert(agree_at(twice, once, k));
    }
    assert forall|k: crate::types::Hash| #[trigger] twice.contains_key(k) implies twice[k] == once[k] by {
        assert(agree_at(twice, once, k));
    }
    assert(twice =~= once);
}

/// Slower mining never gives a harder target: over non-negative elapsed times,
/// the new target grows with the time the interval took.
pub proof fn lemma_scaled_adjustment_monotone(target: nat, s_a: int, s_b: int)
    requires
        0 <= s_a <= s_b,
        target <= crate::spec_min_target(),
        scaled_adjustment_defined(target, s_b),
    ensures
        scaled_adjustment_defined(target, s_a),
        scaled_adjusted_target(target, s_a) <= scaled_adjusted_target(target, s_b),
{
    assert(target * s_a <= target * s_b) by (nonlinear_arith)
        requires
            0 <= s_a <= s_b,
            0 <= target,
    ;
    vstd::arithmetic::div_mod::lemma_div_is_ordered(target * s_a, target * s_b, 500);
    assert(0 <= target * s_a) by (nonlinear_arith)
        requires
            0 <= s_a,
            0 <= target,
    ;
    vstd::arithmetic::div_mod::lemma_div_pos_is_pos(target * s_a, 500);
    assert(scaled_target_value(target, s_a) <= scaled_target_value(target, s_b));
}

/// Mining at exactly the ideal pace keeps a target that is no easier than the
/// easiest one.
pub proof fn lemma_ideal_pace_keeps_target(target: nat)
    requires
        target <= crate::spec_min_target(),
    ensures
        scaled_adjustment_defined(target, 500),
        scaled_adjusted_target(target, 500) == target,
{
    vstd::arithmetic::div_mod::lemma_div_by_multiple(target as int, 500);
    assert(scaled_target_value(target, 500) == target);
}

/// Of two chains that are due for a retarget at the same target, the one whose
/// last interval took longer (both non-negative) ends with a target that is
/// not harder.
pub proof fn lemma_retarget_monotone(a: Seq<Block>, b: Seq<Block>, target: crate::u256::U256)
    requires
        retarget_due(a),
        retarget_due(b),
        0 <= interval_elapsed(a) <= interval_elapsed(b),
        target@ <= crate::spec_min_target(),
        scaled_adjustment_defined(target@, interval_elapsed(b)),
    ensures
        scaled_retarget(a, target) <= scaled_retarget(b, target),
{
    lemma_scaled_adjustment_monotone(target@, interval_elapsed(a), interval_elapsed(b));
}

/// Every pooled transaction's miner fee can be computed: its inputs are
/// unspent outputs, its sums fit in 64 bits, and its inputs cover its outputs.
pub open spec fn pool_fees_defined(c: ChainState) -> bool {
    forall|i: int| 0 <= i < c.mempool.len() ==> fee_defined(c.utxos, #[trigger] c.mempool[i].1)
}

proof fn lemma_first_producer_nonneg(m: Seq<PoolEntry>, h: crate::types::Hash)
    ensures
        0 <= crate::mempool::first_producer(m, h),
    decreases m.len(),
{
    if m.len() > 0 {
        lemma_first_producer_nonneg(m.drop_first(), h);
    }
}

/// The releases only drop entries from the pool.
proof fn lemma_release_keeps_entries(st: (UtxoMap, Seq<PoolEntry>), ins: Seq<crate::types::TransactionInput>)
    ensures
        forall|e: PoolEntry| #[trigger] release_inputs(st, ins).1.contains(e) ==> st.1.contains(e),
    decreases ins.len(),
{
    if ins.len() > 0 {
        lemma_release_keeps_entries(st, ins.drop_last());
        let mid = release_inputs(st, ins.drop_last());
        let h = ins.last().prev_transaction_output_hash;
        let fin = release_step(mid, h);
        assert(release_inputs(st, ins) == fin);
        let idx = crate::mempool::first_producer(mid.1, h);
        lemma_first_producer_nonneg(mid.1, h);
        if mid.0.contains_key(h) && mid.0[h].0 && idx < mid.1.len() {
            assert(fin.1 == mid.1.remove(idx));
            assert forall|e: PoolEntry| #[trigger] fin.1.contains(e) implies st.1.contains(e) by {
                let j = choose|j: int| 0 <= j < fin.1.len() && fin.1[j] == e;
                if j < idx {
                    assert(mid.1[j] == e);
                } else {
                    assert(mid.1[j + 1] == e);
                }
                assert(mid.1.contains(e));
            }
        } else {
            assert(fin.1 == mid.1);
        }
    }
}

/// The fee of a transaction depends only on the keys and outputs of the map.
proof fn lemma_fee_defined_same(u: UtxoMap, v: UtxoMap, tx: Transaction)
    requires
        same_outputs(u, v),
        fee_defined(u, tx),
    ensures
        fee_defined(v, tx),
{
    lemma_input_total_same(u, v, tx.inputs@);
}

/// After the releases of a transaction whose inputs are known and distinct,
/// every entry left in the pool still has a computable fee, the outputs are
/// kept, and the transaction's input total is unchanged.
proof fn lemma_released_fees_defined(pre: ChainState, tx: Transaction)
    requires
        pool_fees_defined(pre),
        inputs_known_distinct(pre.utxos, tx),
    ensures
        ({
            let released = release_inputs((pre.utxos, pre.mempool), tx.inputs@);
            &&& same_outputs(pre.utxos, released.0)
            &&& inputs_known(released.0, tx.inputs@)
            &&& input_total(pre.utxos, tx.inputs@) == input_total(released.0, tx.inputs@)
            &&& forall|i: int|
                0 <= i < released.1.len() ==> fee_defined(released.0, #[trigger] released.1[i].1)
        }),
{
    let st = (pre.utxos, pre.mempool);
    let released = release_inputs(st, tx.inputs@);
    lemma_release_keeps_outputs(st, tx.inputs@);
    lemma_release_keeps_entries(st, tx.inputs@);
    lemma_input_total_same(pre.utxos, released.0, tx.inputs@);
    assert forall|i: int| 0 <= i < released.1.len() implies fee_defined(
        released.0,
        #[trigger] released.1[i].1,
    ) by {
        assert(released.1.contains(released.1[i]));
        let j = choose|j: int| 0 <= j < pre.mempool.len() && pre.mempool[j] == released.1[i];
        assert(fee_defined(pre.utxos, pre.mempool[j].1));
        lemma_fee_defined_same(pre.utxos, released.0, released.1[i].1);
    }
}

/// On a pool whose fees can all be computed, pooling a transaction whose sums
/// fit in 64 bits completes.
pub proof fn lemma_pooling_defined(pre: ChainState, tx: Transaction)
    requires
        pool_fees_defined(pre),
        inputs_known_distinct(pre.utxos, tx) ==> input_total(pre.utxos, tx.inputs@) <= u64::MAX
            && output_total(tx.outputs@) <= u64::MAX,
    ensures
        mempool_addition_defined(pre, tx),
{
    if inputs_known_distinct(pre.utxos, tx) {
        let released = release_inputs((pre.utxos, pre.mempool), tx.inputs@);
        lemma_released_fees_defined(pre, tx);
    }
}

/// Pooling a transaction, accepted or refused, keeps every pooled fee
/// computable, as long as the transaction's own sums fit in 64 bits.
pub proof fn lemma_pooling_keeps_fees_defined(
    pre: ChainState,
    post: ChainState,
    tx: Transaction,
    now: Timestamp,
    r: Result<(), BtcLibError>,
)
    requires
        pool_fees_defined(pre),
        inputs_known_distinct(pre.utxos, tx) ==> input_total(pre.utxos, tx.inputs@) <= u64::MAX
            && output_total(tx.outputs@) <= u64::MAX,
        mempool_added(pre, post, tx, now, r),
    ensures
        pool_fees_defined(post),
{
    broadcast use vstd::seq_lib::group_to_multiset_ensures;

    if inputs_known_distinct(pre.utxos, tx) {
        let released = release_inputs((pre.utxos, pre.mempool), tx.inputs@);
        lemma_released_fees_defined(pre, tx);
        if input_total(released.0, tx.inputs@) < output_total(tx.outputs@) {
            assert(post.utxos == released.0 && post.mempool == released.1);
        } else {
            let grown = released.1.push((now, tx));
            assert(post.utxos == released.0);
            assert(post.mempool == sort_by_fee(grown, released.0));
            assert(fee_defined(released.0, tx));
            lemma_sort_by_fee_sorted(grown, released.0);
            assert forall|i: int| 0 <= i < post.mempool.len() implies fee_defined(
                post.utxos,
                #[trigger] post.mempool[i].1,
            ) by {
                let e = post.mempool[i];
                assert(post.mempool.contains(e));
                assert(post.mempool.to_multiset().count(e) > 0);
                assert(grown.to_multiset().count(e) > 0);
                assert(grown.contains(e));
                let j = choose|j: int| 0 <= j < grown.len() && grown[j] == e;
                if j < released.1.len() {
                    assert(grown[j] == released.1[j]);
                } else {
                    assert(e.1 == tx);
                }
            }
        }
    }
}

/// Before the first halving, at every height below 210, the block reward is
/// the full 50 coins: 5,000,000,000 satoshis.
pub proof fn lemma_reward_full_before_first_halving(height: nat)
    requires
        height < 210,
    ensures
        block_reward(height) == 5_000_000_000,
{
    assert(halvings(height) == 0);
    assert(pow2(0) == 1) by {
        vstd::arithmetic::power2::lemma2_to64();
    }
}

/// The block reward never grows as the chain grows.
pub proof fn lemma_reward_never_grows(lower: nat, higher: nat)
    requires
        lower <= higher,
    ensures
        block_reward(higher) <= block_reward(lower),
{
    vstd::arithmetic::div_mod::lemma_div_is_ordered(lower as int, higher as int, 210);
    let a = halvings(lower);
    let b = halvings(higher);
    lemma_pow2_pos(a);
    if a < b {
        vstd::arithmetic::power2::lemma_pow2_strictly_increases(a, b);
    }
    vstd::arithmetic::div_mod::lemma_div_is_ordered_by_denominator(
        5_000_000_000,
        pow2(a) as int,
        pow2(b) as int,
    );
}

/// Retargeting measures the last interval only, from block n - 50 to the last
/// block n - 1: two chains of the same length that are due for a retarget and
/// whose blocks n - 50 and n - 1 carry the same timestamps retarget the same
/// target alike, whatever their other blocks hold.
pub proof fn lemma_retarget_reads_last_interval(a: Seq<Block>, b: Seq<Block>, target: crate::u256::U256)
    requires
        retarget_due(a),
        a.len() == b.len(),
        a[a.len() - 50].header.timestamp == b[b.len() - 50].header.timestamp,
        a[a.len() - 1].header.timestamp == b[b.len() - 1].header.timestamp,
    ensures
        retarget_due(b),
        retarget_defined(a, target) == retarget_defined(b, target),
        retargeted(a, target) == retargeted(b, target),
        scaled_retarget(a, target) == scaled_retarget(b, target),
{
}

/// A chain whose last 50 blocks, from block n - 50 to block n - 1, took
/// exactly the ideal 500 seconds keeps its target at a retarget, whatever its
/// earlier blocks took.
pub proof fn lemma_ideal_interval_keeps_target(blocks: Seq<Block>, target: crate::u256::U256)
    requires
        retarget_due(blocks),
        target@ <= crate::spec_min_target(),
        blocks[blocks.len() - 1].header.timestamp.total_nanos()
            - blocks[blocks.len() - 50].header.timestamp.total_nanos() == 500_000_000_000,
    ensures
        interval_elapsed(blocks) == 500,
        scaled_retarget(blocks, target) == target@,
{
    lemma_ideal_pace_keeps_target(target@);
}

/// An accepted block takes out of the pool exactly the entries whose
/// transaction digest is the digest of one of the block's transactions; every
/// other entry stays, in its old order.
pub proof fn lemma_block_keeps_other_entries(
    pre: ChainState,
    post: ChainState,
    block: Block,
    calculated_merkle_root: MerkleRoot,
    transactions_verdict: Result<(), BtcLibError>,
    r: Result<(), BtcLibError>,
)
    requires
        block_added(pre, post, block, calculated_merkle_root, transactions_verdict, r),
        r is Ok,
    ensures
        post.mempool == pre.mempool.filter(
            |e: (Timestamp, Transaction)|
                forall|j: int|
                    0 <= j < block.transactions@.len() ==> block.transactions@[j].digest != e.1.digest,
        ),
{
    let other = |e: (Timestamp, Transaction)|
        forall|j: int|
            0 <= j < block.transactions@.len() ==> block.transactions@[j].digest != e.1.digest;
    assert(kept_after_block(block) =~= other);
}

/// A transaction two of whose inputs, at any positions, spend the same output
/// is refused as invalid, and the chain is left as it was.
pub proof fn lemma_repeated_input_refused(
    pre: ChainState,
    post: ChainState,
    tx: Transaction,
    now: Timestamp,
    r: Result<(), BtcLibError>,
    first: int,
    second: int,
)
    requires
        mempool_added(pre, post, tx, now, r),
        0 <= first < second < tx.inputs@.len(),
        tx.inputs@[first].prev_transaction_output_hash == tx.inputs@[second].prev_transaction_output_hash,
    ensures
        r == Err::<(), BtcLibError>(BtcLibError::InvalidTransaction),
        post == pre,
{
}

/// A transaction with an input that spends no unspent output is refused as
/// invalid, and the chain is left as it was.
pub proof fn lemma_unknown_input_refused(
    pre: ChainState,
    post: ChainState,
    tx: Transaction,
    now: Timestamp,
    r: Result<(), BtcLibError>,
    k: int,
)
    requires
        mempool_added(pre, post, tx, now, r),
        0 <= k < tx.inputs@.len(),
        !pre.utxos.contains_key(tx.inputs@[k].prev_transaction_output_hash),
    ensures
        r == Err::<(), BtcLibError>(BtcLibError::InvalidTransaction),
        post == pre,
{
}

/// Clearing the pool at `now` keeps exactly the entries that entered it at
/// most 600 seconds before `now`, in their old order.
pub proof fn lemma_cleanup_keeps_entries_of_at_most_600_seconds(
    pre: ChainState,
    post: ChainState,
    now: Timestamp,
)
    requires
        mempool_cleaned(pre, post, now),
    ensures
        post.mempool == pre.mempool.filter(
            |e: (Timestamp, Transaction)| now.total_nanos() - e.0.total_nanos() <= 600_000_000_000,
        ),
{
    let young = |e: (Timestamp, Transaction)| now.total_nanos() - e.0.total_nanos() <= 600_000_000_000;
    assert(young_at(now) =~= young);
}

} // verus!
