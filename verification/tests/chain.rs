use btclib::blockchain::Blockchain;
use btclib::error::BtcLibError;
use btclib::types::{
    Block, BlockHeader, MerkleRoot, PublicKey, Signature, Timestamp, Transaction, TransactionInput,
    TransactionOutput,
};
use btclib::u256::U256;
use btclib::utxo::UtxoSet;

fn h(n: u64) -> btclib::types::Hash {
    btclib::types::Hash(U256::from_u64(n))
}

fn ts(secs: i64) -> Timestamp {
    Timestamp { secs, nanos: 0 }
}

fn out(value: u64, id: u64) -> TransactionOutput {
    TransactionOutput { value, unique_id: id as u128, pubkey: PublicKey([2u8; 33]), digest: h(id) }
}

fn input(prev: u64) -> TransactionInput {
    TransactionInput { prev_transaction_output_hash: h(prev), signature: Signature([0u8; 64]) }
}

fn tx(inputs: &[u64], outputs: Vec<TransactionOutput>, digest: u64) -> Transaction {
    Transaction { inputs: inputs.iter().map(|i| input(*i)).collect(), outputs, digest: h(digest) }
}

fn block(prev: btclib::types::Hash, secs: i64, transactions: Vec<Transaction>, digest: u64) -> Block {
    Block {
        header: BlockHeader {
            timestamp: ts(secs),
            nonce: 0,
            prev_block_hash: prev,
            merkle_root: MerkleRoot(h(7)),
            target: btclib::min_target(),
            digest: h(1),
        },
        transactions,
        digest: h(digest),
    }
}

fn accept(chain: &mut Blockchain, b: Block) {
    let root = b.header.merkle_root;
    assert_eq!(chain.add_block(b, root, Ok(())), Ok(()));
}

/// A chain of `n` empty blocks, `spacing` seconds apart.
fn chain_of(n: u64, spacing: i64) -> Blockchain {
    let mut chain = Blockchain::new();
    let mut prev = btclib::types::Hash::zero();
    for i in 0..n {
        let digest = 1000 + i;
        accept(&mut chain, block(prev, 1_700_000_000 + spacing * i as i64, vec![], digest));
        prev = h(digest);
    }
    chain
}

fn decimal(u: &U256) -> String {
    String::from_utf8(u.to_decimal()).unwrap()
}

const MIN_TARGET_DEC: &str =
    "1766847064778384329583297500742918515827483896875618958121606201292619775";

#[test]
fn new_chain_is_empty_at_easiest_target() {
    let chain = Blockchain::new();
    assert_eq!(chain.block_height(), 0);
    assert_eq!(decimal(&chain.target()), MIN_TARGET_DEC);
    assert_eq!(chain.mempool().len(), 0);
    assert_eq!(chain.utxos().len(), 0);
    assert_eq!(chain.blocks().len(), 0);
}

#[test]
fn genesis_must_name_zero_predecessor() {
    let mut chain = Blockchain::new();
    let b = block(h(5), 1, vec![], 1000);
    let root = b.header.merkle_root;
    assert_eq!(chain.add_block(b, root, Ok(())), Err(BtcLibError::InvalidBlock));
    assert_eq!(chain.block_height(), 0);
}

#[test]
fn genesis_skips_the_other_checks() {
    let mut chain = Blockchain::new();
    let mut b = block(btclib::types::Hash::zero(), 1, vec![], 1000);
    b.header.digest = btclib::types::Hash(U256::from_limbs([u64::MAX; 4]));
    assert_eq!(chain.add_block(b, MerkleRoot(h(99)), Err(BtcLibError::InvalidSignature)), Ok(()));
    assert_eq!(chain.block_height(), 1);
}

#[test]
fn later_block_must_name_last_block() {
    let mut chain = chain_of(1, 10);
    let b = block(h(999), 1_700_000_100, vec![], 1001);
    let root = b.header.merkle_root;
    assert_eq!(chain.add_block(b, root, Ok(())), Err(BtcLibError::InvalidBlock));
    assert_eq!(chain.block_height(), 1);
}

#[test]
fn later_block_must_meet_its_target() {
    let mut chain = chain_of(1, 10);
    let mut b = block(h(1000), 1_700_000_100, vec![], 1001);
    b.header.target = U256::from_u64(5);
    b.header.digest = h(6);
    let root = b.header.merkle_root;
    assert_eq!(chain.add_block(b, root, Ok(())), Err(BtcLibError::InvalidBlock));
    let mut b = block(h(1000), 1_700_000_100, vec![], 1001);
    b.header.target = U256::from_u64(6);
    b.header.digest = h(6);
    let root = b.header.merkle_root;
    assert_eq!(chain.add_block(b, root, Ok(())), Ok(()));
}

#[test]
fn later_block_must_carry_its_merkle_root() {
    let mut chain = chain_of(1, 10);
    let b = block(h(1000), 1_700_000_100, vec![], 1001);
    assert_eq!(chain.add_block(b, MerkleRoot(h(8)), Ok(())), Err(BtcLibError::InvalidMerkleRoot));
}

#[test]
fn later_block_must_be_later() {
    let mut chain = chain_of(1, 10);
    let b = block(h(1000), 1_700_000_000, vec![], 1001);
    let root = b.header.merkle_root;
    assert_eq!(chain.add_block(b, root, Ok(())), Err(BtcLibError::InvalidBlock));
    let mut b = block(h(1000), 1_700_000_000, vec![], 1001);
    b.header.timestamp.nanos = 1;
    let root = b.header.merkle_root;
    assert_eq!(chain.add_block(b, root, Ok(())), Ok(()));
}

#[test]
fn later_block_reports_transaction_check() {
    let mut chain = chain_of(1, 10);
    let b = block(h(1000), 1_700_000_100, vec![], 1001);
    let root = b.header.merkle_root;
    assert_eq!(chain.add_block(b, root, Err(BtcLibError::InvalidSignature)), Err(BtcLibError::InvalidSignature));
    assert_eq!(chain.block_height(), 1);
}

#[test]
fn target_stays_between_adjustments() {
    let chain = chain_of(49, 10);
    assert_eq!(decimal(&chain.target()), MIN_TARGET_DEC);
}

#[test]
fn target_scales_with_interval_time() {
    // 49 gaps of 10 s: 490 s against the ideal 500 s.
    let chain = chain_of(50, 10);
    assert_eq!(
        decimal(&chain.target()),
        "1731510123482816642991631550728060145510934218938106578959174077266767379"
    );
}

#[test]
fn target_falls_by_at_most_a_quarter() {
    let chain = chain_of(50, 1);
    assert_eq!(
        decimal(&chain.target()),
        "441711766194596082395824375185729628956870974218904739530401550323154943"
    );
}

#[test]
fn target_never_exceeds_the_easiest() {
    let chain = chain_of(50, 100);
    assert_eq!(decimal(&chain.target()), MIN_TARGET_DEC);
}

#[test]
fn checked_adjustment_runs_when_defined() {
    let mut chain = chain_of(49, 10);
    assert!(chain.is_retarget_defined());
    assert!(chain.try_adjust_target_checked());
    assert_eq!(decimal(&chain.target()), MIN_TARGET_DEC);
    let b = block(h(1048), 1_700_000_000 + 490, vec![], 1049);
    let root = b.header.merkle_root;
    assert_eq!(chain.add_block_checked(b, root, Ok(())), Some(Ok(())));
    assert_eq!(
        decimal(&chain.target()),
        "1731510123482816642991631550728060145510934218938106578959174077266767379"
    );
}

#[test]
fn block_reward_halves_every_210_blocks() {
    assert_eq!(Blockchain::new().calculate_block_reward(), 5_000_000_000);
    let chain = chain_of(209, 10);
    assert_eq!(chain.calculate_block_reward(), 5_000_000_000);
    let chain = chain_of(210, 10);
    assert_eq!(chain.calculate_block_reward(), 2_500_000_000);
    let chain = chain_of(420, 10);
    assert_eq!(chain.calculate_block_reward(), 1_250_000_000);
}

#[test]
fn accepted_block_clears_its_transactions_from_the_pool() {
    let mut chain = Blockchain::new();
    accept(&mut chain, block(btclib::types::Hash::zero(), 100, vec![tx(&[], vec![out(50, 11)], 500)], 1000));
    chain.rebuild_utxos();
    let spend = tx(&[500], vec![out(20, 21)], 600);
    assert_eq!(chain.add_to_mempool_at(spend, ts(200)), Ok(()));
    assert_eq!(chain.mempool().len(), 1);
    let copy = tx(&[500], vec![out(20, 21)], 600);
    accept(&mut chain, block(h(1000), 300, vec![copy], 1001));
    assert_eq!(chain.mempool().len(), 0);
}

#[test]
fn rebuild_replays_inputs_and_outputs() {
    let mut chain = Blockchain::new();
    let coinbase = tx(&[], vec![out(100, 11), out(50, 12)], 500);
    accept(&mut chain, block(btclib::types::Hash::zero(), 100, vec![coinbase], 1000));
    chain.rebuild_utxos();
    assert_eq!(chain.utxos().len(), 1);
    let (marked, o) = chain.utxos().get(&h(500)).unwrap();
    assert!(!marked);
    assert_eq!(o.value, 50);
    let spend = tx(&[500], vec![out(40, 13)], 501);
    accept(&mut chain, block(h(1000), 200, vec![spend], 1001));
    chain.rebuild_utxos();
    assert!(!chain.utxos().contains_key(&h(500)));
    assert_eq!(chain.utxos().get(&h(501)).unwrap().1.value, 40);
}

fn funded_chain() -> Blockchain {
    let mut chain = Blockchain::new();
    let coinbase_a = tx(&[], vec![out(50, 11)], 500);
    let coinbase_b = tx(&[], vec![out(80, 12)], 501);
    accept(&mut chain, block(btclib::types::Hash::zero(), 100, vec![coinbase_a, coinbase_b], 1000));
    chain.rebuild_utxos();
    chain
}

#[test]
fn pool_refuses_unknown_input() {
    let mut chain = funded_chain();
    assert_eq!(chain.add_to_mempool_at(tx(&[777], vec![], 600), ts(200)), Err(BtcLibError::InvalidTransaction));
    assert_eq!(chain.mempool().len(), 0);
}

#[test]
fn pool_refuses_repeated_input() {
    let mut chain = funded_chain();
    assert_eq!(chain.add_to_mempool_at(tx(&[500, 500], vec![], 600), ts(200)), Err(BtcLibError::InvalidTransaction));
    assert_eq!(chain.mempool().len(), 0);
}

#[test]
fn pool_refuses_overspending() {
    let mut chain = funded_chain();
    assert_eq!(
        chain.add_to_mempool_at(tx(&[500], vec![out(51, 21)], 600), ts(200)),
        Err(BtcLibError::InvalidTransaction)
    );
    assert_eq!(chain.mempool().len(), 0);
}

#[test]
fn pool_is_sorted_by_ascending_fee() {
    let mut chain = funded_chain();
    assert_eq!(chain.add_to_mempool_at(tx(&[500], vec![out(10, 21)], 600), ts(200)), Ok(()));
    assert_eq!(chain.add_to_mempool_at(tx(&[501], vec![out(75, 22)], 601), ts(201)), Ok(()));
    let pool = chain.mempool();
    assert_eq!(pool.len(), 2);
    assert_eq!(pool[0].1.digest, h(601));
    assert_eq!(pool[1].1.digest, h(600));
    assert_eq!(pool[0].0, ts(201));
}

#[test]
fn pool_keeps_arrival_order_for_equal_fees() {
    let mut chain = funded_chain();
    assert_eq!(chain.add_to_mempool_at(tx(&[500], vec![out(45, 21)], 600), ts(200)), Ok(()));
    assert_eq!(chain.add_to_mempool_at(tx(&[501], vec![out(75, 22)], 601), ts(201)), Ok(()));
    let pool = chain.mempool();
    assert_eq!(pool[0].1.digest, h(600));
    assert_eq!(pool[1].1.digest, h(601));
}

fn marked_chain() -> Blockchain {
    let mut utxos = UtxoSet::new();
    utxos.insert(h(500), true, out(50, 500));
    utxos.insert(h(501), true, out(70, 501));
    Blockchain::from_parts(Vec::new(), btclib::min_target(), utxos)
}

#[test]
fn marked_input_releases_its_producer() {
    let mut chain = marked_chain();
    // No pooled transaction produces 501: its mark is cleared.
    assert_eq!(chain.add_to_mempool_at(tx(&[501], vec![out(60, 500)], 600), ts(10)), Ok(()));
    assert_eq!(chain.utxos().get(&h(501)).unwrap().0, false);
    assert_eq!(chain.mempool().len(), 1);
    // The pooled transaction 600 produces an output with digest 500: it leaves
    // the pool and its inputs are unmarked.
    assert_eq!(chain.add_to_mempool_at(tx(&[500], vec![out(10, 22)], 601), ts(20)), Ok(()));
    assert_eq!(chain.mempool().len(), 1);
    assert_eq!(chain.mempool()[0].1.digest, h(601));
    assert_eq!(chain.utxos().get(&h(500)).unwrap().0, true);
}

#[test]
fn refused_transaction_keeps_its_releases() {
    let mut chain = marked_chain();
    assert_eq!(
        chain.add_to_mempool_at(tx(&[501], vec![out(71, 22)], 600), ts(10)),
        Err(BtcLibError::InvalidTransaction)
    );
    assert_eq!(chain.utxos().get(&h(501)).unwrap().0, false);
    assert_eq!(chain.mempool().len(), 0);
}

#[test]
fn cleanup_drops_expired_entries_and_unmarks_their_inputs() {
    let mut chain = marked_chain();
    assert_eq!(chain.add_to_mempool_at(tx(&[500], vec![out(10, 22)], 601), ts(1000)), Ok(()));
    chain.cleanup_mempool_at(ts(1600));
    assert_eq!(chain.mempool().len(), 1);
    chain.cleanup_mempool_at(Timestamp { secs: 1600, nanos: 1 });
    assert_eq!(chain.mempool().len(), 0);
    assert_eq!(chain.utxos().get(&h(500)).unwrap().0, false);
    assert_eq!(chain.utxos().get(&h(501)).unwrap().0, true);
}

#[test]
fn cleanup_with_clock_drops_old_entries() {
    let mut chain = funded_chain();
    assert_eq!(chain.add_to_mempool_at(tx(&[500], vec![out(10, 22)], 601), ts(0)), Ok(()));
    chain.cleanup_mempool();
    assert_eq!(chain.mempool().len(), 0);
}

#[test]
fn pooling_with_clock_stamps_current_time() {
    let mut chain = funded_chain();
    assert_eq!(chain.add_to_mempool(tx(&[500], vec![out(10, 22)], 601)), Ok(()));
    assert_eq!(chain.mempool().len(), 1);
    assert!(chain.mempool()[0].0.secs > 1_600_000_000);
    assert!(chain.mempool()[0].0.nanos < 1_000_000_000);
}

#[test]
fn reward_halves_210_blocks_later() {
    let early = chain_of(5, 10);
    let late = chain_of(215, 10);
    assert_eq!(late.calculate_block_reward(), early.calculate_block_reward() / 2);
}

#[test]
fn accepted_chain_stays_linked_and_sound() {
    let chain = chain_of(120, 7);
    let blocks = chain.blocks();
    assert_eq!(blocks[0].header.prev_block_hash, btclib::types::Hash::zero());
    for i in 1..blocks.len() {
        assert_eq!(blocks[i].header.prev_block_hash, blocks[i - 1].hash());
        assert!(!blocks[i].header.timestamp.is_not_after(&blocks[i - 1].header.timestamp));
    }
    assert!(chain.target().le(&btclib::min_target()));
}

fn linked_blocks(n: u64, spacing: i64) -> Vec<Block> {
    let mut blocks = Vec::new();
    let mut prev = btclib::types::Hash::zero();
    for i in 0..n {
        let digest = 1000 + i;
        blocks.push(block(prev, 1_700_000_000 + spacing * i as i64, vec![], digest));
        prev = h(digest);
    }
    blocks
}

#[test]
fn retarget_that_cannot_complete_is_reported() {
    let max = U256::from_limbs([u64::MAX; 4]);
    let mut chain = Blockchain::from_parts(linked_blocks(50, 10), max, UtxoSet::new());
    assert!(!chain.is_retarget_defined());
    assert!(!chain.try_adjust_target_checked());
    assert_eq!(chain.target(), max);
}

#[test]
fn block_whose_retarget_cannot_complete_is_not_added() {
    let max = U256::from_limbs([u64::MAX; 4]);
    let mut chain = Blockchain::from_parts(linked_blocks(49, 10), max, UtxoSet::new());
    let b = block(h(1048), 1_700_000_000 + 490, vec![], 1049);
    let root = b.header.merkle_root;
    assert!(!chain.is_block_addition_defined(&b, &root, &Ok(())));
    assert_eq!(chain.add_block_checked(b, root, Ok(())), None);
    assert_eq!(chain.block_height(), 49);
    // A refused block needs no retarget.
    let bad = block(h(1), 1_700_000_000 + 490, vec![], 1049);
    let root = bad.header.merkle_root;
    assert_eq!(chain.add_block_checked(bad, root, Ok(())), Some(Err(BtcLibError::InvalidBlock)));
}

fn overflow_chain() -> Blockchain {
    let mut chain = Blockchain::new();
    let big = tx(&[], vec![out(u64::MAX, 11)], 500);
    let small = tx(&[], vec![out(1, 12)], 501);
    accept(&mut chain, block(btclib::types::Hash::zero(), 100, vec![big, small], 1000));
    chain.rebuild_utxos();
    chain
}

#[test]
fn checked_pooling_refuses_overflowing_input_sum() {
    let mut chain = overflow_chain();
    let spend = tx(&[500, 501], vec![out(1, 21)], 600);
    assert!(!chain.is_mempool_addition_defined(&spend));
    assert_eq!(chain.add_to_mempool_checked(spend, ts(200)), None);
    assert_eq!(chain.mempool().len(), 0);
    assert_eq!(chain.utxos().len(), 2);
}

#[test]
fn checked_pooling_refuses_overflowing_output_sum() {
    let mut chain = overflow_chain();
    let spend = tx(&[501], vec![out(u64::MAX, 21), out(1, 22)], 600);
    assert!(!chain.is_mempool_addition_defined(&spend));
    assert_eq!(chain.add_to_mempool_checked(spend, ts(200)), None);
    assert_eq!(chain.mempool().len(), 0);
}

#[test]
fn checked_pooling_runs_when_defined() {
    let mut chain = overflow_chain();
    let spend = tx(&[500], vec![out(10, 21)], 600);
    assert!(chain.is_mempool_addition_defined(&spend));
    assert_eq!(chain.add_to_mempool_checked(spend, ts(200)), Some(Ok(())));
    assert_eq!(chain.mempool().len(), 1);
    assert_eq!(chain.mempool()[0].0, ts(200));
}

#[test]
fn checked_pooling_reports_refusals() {
    let mut chain = overflow_chain();
    let unknown = tx(&[777], vec![], 600);
    assert!(chain.is_mempool_addition_defined(&unknown));
    assert_eq!(chain.add_to_mempool_checked(unknown, ts(200)), Some(Err(BtcLibError::InvalidTransaction)));
    let overspend = tx(&[501], vec![out(2, 21)], 601);
    assert_eq!(chain.add_to_mempool_checked(overspend, ts(201)), Some(Err(BtcLibError::InvalidTransaction)));
    assert_eq!(chain.mempool().len(), 0);
}

#[test]
fn checked_pooling_releases_marked_producer() {
    let mut chain = marked_chain();
    assert_eq!(chain.add_to_mempool_checked(tx(&[501], vec![out(60, 500)], 600), ts(10)), Some(Ok(())));
    let second = tx(&[500], vec![out(10, 22)], 601);
    assert!(chain.is_mempool_addition_defined(&second));
    assert_eq!(chain.add_to_mempool_checked(second, ts(20)), Some(Ok(())));
    assert_eq!(chain.mempool().len(), 1);
    assert_eq!(chain.mempool()[0].1.digest, h(601));
}

#[test]
fn rebuilding_twice_gives_what_rebuilding_once_gives() {
    let mut chain = Blockchain::new();
    let coinbase = tx(&[], vec![out(100, 11), out(50, 12)], 500);
    accept(&mut chain, block(btclib::types::Hash::zero(), 100, vec![coinbase], 1000));
    let spend = tx(&[500], vec![out(40, 13)], 501);
    accept(&mut chain, block(h(1000), 200, vec![spend], 1001));
    chain.rebuild_utxos();
    let once: Vec<(btclib::types::Hash, bool, u64)> =
        chain.utxos().entries().iter().map(|e| (e.hash, e.marked, e.output.value)).collect();
    chain.rebuild_utxos();
    let twice: Vec<(btclib::types::Hash, bool, u64)> =
        chain.utxos().entries().iter().map(|e| (e.hash, e.marked, e.output.value)).collect();
    assert_eq!(once.len(), twice.len());
    for (k, m, v) in &once {
        let (m2, o2) = chain.utxos().get(k).unwrap();
        assert_eq!((*m, *v), (m2, o2.value));
    }
}

#[test]
fn cloned_chain_holds_the_same_parts() {
    let chain = funded_chain();
    let copy = chain.clone();
    assert_eq!(copy.block_height(), chain.block_height());
    assert_eq!(copy.utxos().len(), chain.utxos().len());
    assert_eq!(copy.utxos().get(&h(500)).unwrap().1.value, 50);
    assert_eq!(copy.utxos().get(&h(501)).unwrap().1.value, 80);
}
