use vstd::prelude::*;

use crate::types;
use crate::types::{Timestamp, Transaction, TransactionInput, TransactionOutput};
use crate::utxo::UtxoSet;

verus! {

/// A pooled transaction with the time it entered the pool.
pub type PoolEntry = (Timestamp, Transaction);

/// Unspent outputs as a map from output digest to (mark, output).
pub type UtxoMap = Map<types::Hash, (bool, TransactionOutput)>;

/// The digests that a list of inputs spends.
pub open spec fn input_hashes(ins: Seq<TransactionInput>) -> Set<types::Hash> {
    Set::new(
        |h: types::Hash|
            exists|k: int| 0 <= k < ins.len() && ins[k].prev_transaction_output_hash == h,
    )
}

/// The map with the marks of the given keys cleared; other entries stay.
pub open spec fn unmarked(u: UtxoMap, hs: Set<types::Hash>) -> UtxoMap {
    Map::new(
        |k: types::Hash| u.contains_key(k),
        |k: types::Hash|
            if hs.contains(k) {
                (false, u[k].1)
            } else {
                u[k]
            },
    )
}

/// Sum of the values of a list of outputs.
pub open spec fn output_total(outs: Seq<TransactionOutput>) -> int
    decreases outs.len(),
{
    if outs.len() == 0 {
        0
    } else {
        output_total(outs.drop_last()) + outs.last().value
    }
}

/// Sum of the values of the outputs that a list of inputs spends.
pub open spec fn input_total(u: UtxoMap, ins: Seq<TransactionInput>) -> int
    decreases ins.len(),
{
    if ins.len() == 0 {
        0
    } else {
        input_total(u, ins.drop_last()) + u[ins.last().prev_transaction_output_hash].1.value
    }
}

/// Every input spends an output that the map holds.
pub open spec fn inputs_known(u: UtxoMap, ins: Seq<TransactionInput>) -> bool {
    forall|k: int| 0 <= k < ins.len() ==> u.contains_key(#[trigger] ins[k].prev_transaction_output_hash)
}

/// Every input spends an output that the map holds, and no two inputs spend
/// the same output.
pub open spec fn inputs_known_distinct(u: UtxoMap, tx: Transaction) -> bool {
    &&& inputs_known(u, tx.inputs@)
    &&& forall|a: int, b: int|
        0 <= a < b < tx.inputs@.len() ==> tx.inputs@[a].prev_transaction_output_hash
            != tx.inputs@[b].prev_transaction_output_hash
}

/// The miner fee of a transaction can be computed in 64 bits: its inputs are
/// known, both sums fit, and the inputs cover the outputs.
pub open spec fn fee_defined(u: UtxoMap, tx: Transaction) -> bool {
    &&& inputs_known(u, tx.inputs@)
    &&& input_total(u, tx.inputs@) <= u64::MAX
    &&& output_total(tx.outputs@) <= u64::MAX
    &&& input_total(u, tx.inputs@) >= output_total(tx.outputs@)
}

/// The miner fee: what the inputs bring in less what the outputs pay out.
pub open spec fn fee(u: UtxoMap, tx: Transaction) -> int {
    input_total(u, tx.inputs@) - output_total(tx.outputs@)
}

/// Where a stable insertion puts an entry with fee `f` into `s`: after every
/// entry, counted from the back, whose fee is not greater than `f`.
pub open spec fn insert_position(s: Seq<PoolEntry>, u: UtxoMap, f: int) -> int
    decreases s.len(),
{
    if s.len() == 0 {
        0
    } else if fee(u, s.last().1) > f {
        insert_position(s.drop_last(), u, f)
    } else {
        s.len() as int
    }
}

/// Stable sort of pool entries by ascending miner fee; entries with equal fees
/// keep their order.
pub open spec fn sort_by_fee(s: Seq<PoolEntry>, u: UtxoMap) -> Seq<PoolEntry>
    decreases s.len(),
{
    if s.len() == 0 {
        s
    } else {
        let sorted = sort_by_fee(s.drop_last(), u);
        sorted.insert(insert_position(sorted, u, fee(u, s.last().1)), s.last())
    }
}

/// A transaction has an output with digest `h`.
pub open spec fn has_output(tx: Transaction, h: types::Hash) -> bool {
    exists|k: int| 0 <= k < tx.outputs@.len() && tx.outputs@[k].digest == h
}

/// The index of the first pooled transaction with an output of digest `h`,
/// or the pool's length when there is none.
pub open spec fn first_producer(m: Seq<PoolEntry>, h: types::Hash) -> int
    decreases m.len(),
{
    if m.len() == 0 {
        0
    } else if has_output(m[0].1, h) {
        0
    } else {
        1 + first_producer(m.drop_first(), h)
    }
}

/// What pooling a transaction does for one of its inputs, spending `h`:
/// when the output under `h` is marked, the first pooled transaction with an
/// output of digest `h` is dropped from the pool and the marks of all its
/// inputs are cleared; if there is none, the mark of `h` is cleared.
pub open spec fn release_step(st: (UtxoMap, Seq<PoolEntry>), h: types::Hash) -> (UtxoMap, Seq<PoolEntry>) {
    let (u, m) = st;
    if u.contains_key(h) && u[h].0 {
        let idx = first_producer(m, h);
        if idx < m.len() {
            (unmarked(u, input_hashes(m[idx].1.inputs@)), m.remove(idx))
        } else {
            (u.insert(h, (false, u[h].1)), m)
        }
    } else {
        st
    }
}

/// `release_step` for each input in order.
pub open spec fn release_inputs(st: (UtxoMap, Seq<PoolEntry>), ins: Seq<TransactionInput>) -> (
    UtxoMap,
    Seq<PoolEntry>,
)
    decreases ins.len(),
{
    if ins.len() == 0 {
        st
    } else {
        release_step(release_inputs(st, ins.drop_last()), ins.last().prev_transaction_output_hash)
    }
}

/// A pooled entry is expired at `now` when more than the maximum age has
/// passed since it entered the pool.
pub open spec fn expired(now: Timestamp, e: PoolEntry) -> bool {
    now.total_nanos() - e.0.total_nanos() > crate::MAX_MEMPOOL_TRANSACTION_AGE * 1_000_000_000
}

/// The digests spent by the inputs of the entries expired at `now`.
pub open spec fn expired_inputs(now: Timestamp, m: Seq<PoolEntry>) -> Set<types::Hash> {
    Set::new(
        |h: types::Hash|
            exists|i: int|
                0 <= i < m.len() && expired(now, m[i]) && #[trigger] input_hashes(
                    m[i].1.inputs@,
                ).contains(h),
    )
}

pub proof fn lemma_unmarked_empty(u: UtxoMap)
    ensures
        unmarked(u, Set::empty()) == u,
{
    assert(unmarked(u, Set::empty()) =~= u);
}

/// Clearing one more mark.
pub proof fn lemma_unmarked_insert(u: UtxoMap, hs: Set<types::Hash>, h: types::Hash)
    ensures
        (if unmarked(u, hs).contains_key(h) {
            unmarked(u, hs).insert(h, (false, unmarked(u, hs)[h].1))
        } else {
            unmarked(u, hs)
        }) == unmarked(u, hs.insert(h)),
{
    let v = unmarked(u, hs);
    let w = if v.contains_key(h) {
        v.insert(h, (false, v[h].1))
    } else {
        v
    };
    assert(w =~= unmarked(u, hs.insert(h)));
}

pub proof fn lemma_input_hashes_step(ins: Seq<TransactionInput>, t: int)
    requires
        0 <= t < ins.len(),
    ensures
        input_hashes(ins.take(t + 1)) == input_hashes(ins.take(t)).insert(
            ins[t].prev_transaction_output_hash,
        ),
{
    let s1 = ins.take(t + 1);
    let s0 = ins.take(t);
    let a = input_hashes(s1);
    let b = input_hashes(s0).insert(ins[t].prev_transaction_output_hash);
    assert forall|h: types::Hash| a.contains(h) <==> b.contains(h) by {
        if a.contains(h) {
            let k = choose|k: int| 0 <= k < s1.len() && #[trigger] s1[k].prev_transaction_output_hash == h;
            if k < t {
                assert(s0[k] == ins[k]);
                assert(s0[k].prev_transaction_output_hash == h);
            }
        }
        if b.contains(h) && h != ins[t].prev_transaction_output_hash {
            let k = choose|k: int| 0 <= k < s0.len() && #[trigger] s0[k].prev_transaction_output_hash == h;
            assert(s1[k] == ins[k]);
            assert(s1[k].prev_transaction_output_hash == h);
        }
        if h == ins[t].prev_transaction_output_hash {
            assert(s1[t] == ins[t]);
        }
    }
    assert(a =~= b);
}

/// Clearing marks keeps the keys and the outputs.
pub open spec fn same_outputs(u: UtxoMap, v: UtxoMap) -> bool {
    &&& u.dom() == v.dom()
    &&& forall|k: types::Hash| u.contains_key(k) ==> #[trigger] v[k].1 == u[k].1
}

pub proof fn lemma_release_keeps_outputs(st: (UtxoMap, Seq<PoolEntry>), ins: Seq<TransactionInput>)
    ensures
        same_outputs(st.0, release_inputs(st, ins).0),
    decreases ins.len(),
{
    if ins.len() > 0 {
        lemma_release_keeps_outputs(st, ins.drop_last());
        let mid = release_inputs(st, ins.drop_last());
        let h = ins.last().prev_transaction_output_hash;
        let fin = release_step(mid, h);
        assert(same_outputs(mid.0, fin.0)) by {
            if mid.0.contains_key(h) && mid.0[h].0 {
                let idx = first_producer(mid.1, h);
                if idx < mid.1.len() {
                    assert(fin.0.dom() =~= mid.0.dom());
                } else {
                    assert(fin.0.dom() =~= mid.0.dom());
                }
            }
        }
        assert(fin.0.dom() =~= st.0.dom());
    }
}

/// With the same keys and outputs, the input sums agree.
pub proof fn lemma_input_total_same(u: UtxoMap, v: UtxoMap, ins: Seq<TransactionInput>)
    requires
        same_outputs(u, v),
        inputs_known(u, ins),
    ensures
        input_total(u, ins) == input_total(v, ins),
        inputs_known(v, ins),
    decreases ins.len(),
{
    if ins.len() > 0 {
        let p = ins.drop_last();
        assert(inputs_known(u, p)) by {
            assert forall|k: int| 0 <= k < p.len() implies u.contains_key(
                #[trigger] p[k].prev_transaction_output_hash,
            ) by {
                assert(p[k] == ins[k]);
            }
        }
        lemma_input_total_same(u, v, p);
        assert(u.contains_key(ins[ins.len() - 1].prev_transaction_output_hash));
    }
}

/// Partial sums of inputs stay within the total.
proof fn lemma_input_total_prefix(u: UtxoMap, ins: Seq<TransactionInput>, k: int)
    requires
        0 <= k <= ins.len(),
    ensures
        0 <= input_total(u, ins.take(k)) <= input_total(u, ins),
    decreases ins.len(),
{
    if k < ins.len() {
        lemma_input_total_prefix(u, ins.drop_last(), k);
        assert(ins.take(k) =~= ins.drop_last().take(k));
    } else {
        assert(ins.take(k) =~= ins);
        lemma_input_total_nonneg(u, ins);
    }
}

proof fn lemma_input_total_nonneg(u: UtxoMap, ins: Seq<TransactionInput>)
    ensures
        0 <= input_total(u, ins),
    decreases ins.len(),
{
    if ins.len() > 0 {
        lemma_input_total_nonneg(u, ins.drop_last());
    }
}

/// Partial sums of outputs stay within the total.
proof fn lemma_output_total_prefix(outs: Seq<TransactionOutput>, k: int)
    requires
        0 <= k <= outs.len(),
    ensures
        0 <= output_total(outs.take(k)) <= output_total(outs),
    decreases outs.len(),
{
    if k < outs.len() {
        lemma_output_total_prefix(outs.drop_last(), k);
        assert(outs.take(k) =~= outs.drop_last().take(k));
    } else {
        assert(outs.take(k) =~= outs);
        lemma_output_total_nonneg(outs);
    }
}

proof fn lemma_output_total_nonneg(outs: Seq<TransactionOutput>)
    ensures
        0 <= output_total(outs),
    decreases outs.len(),
{
    if outs.len() > 0 {
        lemma_output_total_nonneg(outs.drop_last());
    }
}

/// Sum of the values of the outputs that `ins` spends.
pub fn input_value_sum(utxos: &UtxoSet, ins: &Vec<TransactionInput>) -> (r: u64)
    requires
        inputs_known(utxos@, ins@),
        input_total(utxos@, ins@) <= u64::MAX,
    ensures
        r == input_total(utxos@, ins@),
{
    let n = ins.len();
    let mut acc: u64 = 0;
    let mut k: usize = 0;
    while k < n
        invariant
            k <= n,
            n == ins@.len(),
            inputs_known(utxos@, ins@),
            input_total(utxos@, ins@) <= u64::MAX,
            acc == input_total(utxos@, ins@.take(k as int)),
        decreases n - k,
    {
        let h = ins[k].prev_transaction_output_hash;
        assert(utxos@.contains_key(ins@[k as int].prev_transaction_output_hash));
        let entry = utxos.get(&h);
        let value = match entry {
            Some(e) => e.1.value,
            None => 0,
        };
        proof {
            assert(ins@.take(k + 1).drop_last() =~= ins@.take(k as int));
            lemma_input_total_prefix(utxos@, ins@, k + 1);
        }
        acc = acc + value;
        k = k + 1;
    }
    proof {
        assert(ins@.take(n as int) =~= ins@);
    }
    acc
}

/// Sum of the values of `outs`.
pub fn output_value_sum(outs: &Vec<TransactionOutput>) -> (r: u64)
    requires
        output_total(outs@) <= u64::MAX,
    ensures
        r == output_total(outs@),
{
    let n = outs.len();
    let mut acc: u64 = 0;
    let mut k: usize = 0;
    while k < n
        invariant
            k <= n,
            n == outs@.len(),
            output_total(outs@) <= u64::MAX,
            acc == output_total(outs@.take(k as int)),
        decreases n - k,
    {
        proof {
            assert(outs@.take(k + 1).drop_last() =~= outs@.take(k as int));
            lemma_output_total_prefix(outs@, k + 1);
        }
        acc = acc + outs[k].value;
        k = k + 1;
    }
    proof {
        assert(outs@.take(n as int) =~= outs@);
    }
    acc
}

/// Sum of the values of the outputs that `ins` spends, or `None` when it does
/// not fit in 64 bits.
pub fn checked_input_value_sum(utxos: &UtxoSet, ins: &Vec<TransactionInput>) -> (r: Option<u64>)
    requires
        inputs_known(utxos@, ins@),
    ensures
        match r {
            Some(v) => v == input_total(utxos@, ins@),
            None => input_total(utxos@, ins@) > u64::MAX,
        },
{
    let n = ins.len();
    let mut acc: u64 = 0;
    let mut k: usize = 0;
    while k < n
        invariant
            k <= n,
            n == ins@.len(),
            inputs_known(utxos@, ins@),
            acc == input_total(utxos@, ins@.take(k as int)),
        decreases n - k,
    {
        let h = ins[k].prev_transaction_output_hash;
        assert(utxos@.contains_key(ins@[k as int].prev_transaction_output_hash));
        let entry = utxos.get(&h);
        let value = match entry {
            Some(e) => e.1.value,
            None => 0,
        };
        proof {
            assert(ins@.take(k + 1).drop_last() =~= ins@.take(k as int));
            lemma_input_total_prefix(utxos@, ins@, k + 1);
        }
        match acc.checked_add(value) {
            Some(next) => {
                acc = next;
            },
            None => {
                return None;
            },
        }
        k = k + 1;
    }
    proof {
        assert(ins@.take(n as int) =~= ins@);
    }
    Some(acc)
}

/// Sum of the values of `outs`, or `None` when it does not fit in 64 bits.
pub fn checked_output_value_sum(outs: &Vec<TransactionOutput>) -> (r: Option<u64>)
    ensures
        match r {
            Some(v) => v == output_total(outs@),
            None => output_total(outs@) > u64::MAX,
        },
{
    let n = outs.len();
    let mut acc: u64 = 0;
    let mut k: usize = 0;
    while k < n
        invariant
            k <= n,
            n == outs@.len(),
            acc == output_total(outs@.take(k as int)),
        decreases n - k,
    {
        proof {
            assert(outs@.take(k + 1).drop_last() =~= outs@.take(k as int));
            lemma_output_total_prefix(outs@, k + 1);
        }
        match acc.checked_add(outs[k].value) {
            Some(next) => {
                acc = next;
            },
            None => {
                return None;
            },
        }
        k = k + 1;
    }
    proof {
        assert(outs@.take(n as int) =~= outs@);
    }
    Some(acc)
}

/// Whether the miner fee of `tx` can be computed in 64 bits over `utxos`.
pub fn is_fee_defined(utxos: &UtxoSet, tx: &Transaction) -> (r: bool)
    ensures
        r == fee_defined(utxos@, *tx),
{
    let n = tx.inputs.len();
    let mut k: usize = 0;
    while k < n
        invariant
            k <= n,
            n == tx.inputs@.len(),
            forall|j: int|
                0 <= j < k ==> utxos@.contains_key(#[trigger] tx.inputs@[j].prev_transaction_output_hash),
        decreases n - k,
    {
        if !utxos.contains_key(&tx.inputs[k].prev_transaction_output_hash) {
            return false;
        }
        k = k + 1;
    }
    match (checked_input_value_sum(utxos, &tx.inputs), checked_output_value_sum(&tx.outputs)) {
        (Some(all_inputs), Some(all_outputs)) => all_inputs >= all_outputs,
        _ => false,
    }
}

/// Clears the marks of the outputs that `ins` spends.
pub fn unmark_spent(utxos: &mut UtxoSet, ins: &Vec<TransactionInput>)
    ensures
        final(utxos)@ == unmarked(old(utxos)@, input_hashes(ins@)),
{
    let ghost u_before = utxos@;
    let n = ins.len();
    let mut t: usize = 0;
    proof {
        assert(input_hashes(ins@.take(0)) =~= Set::<types::Hash>::empty());
        lemma_unmarked_empty(u_before);
    }
    while t < n
        invariant
            t <= n,
            n == ins@.len(),
            utxos@ == unmarked(u_before, input_hashes(ins@.take(t as int))),
        decreases n - t,
    {
        let h = ins[t].prev_transaction_output_hash;
        proof {
            lemma_unmarked_insert(u_before, input_hashes(ins@.take(t as int)), h);
            lemma_input_hashes_step(ins@, t as int);
        }
        utxos.unmark(&h);
        t = t + 1;
    }
    proof {
        assert(ins@.take(n as int) =~= ins@);
    }
}

/// The pool entries at the listed positions, in the order of the list.
pub open spec fn picked(m: Seq<PoolEntry>, live: Seq<usize>) -> Seq<PoolEntry> {
    Seq::new(live.len(), |k: int| m[live[k] as int])
}

/// Finds the first of the listed pool entries with an output of digest `h`.
pub fn find_producer_among(pool: &Vec<PoolEntry>, live: &Vec<usize>, h: &types::Hash) -> (r: usize)
    requires
        forall|k: int| 0 <= k < live@.len() ==> #[trigger] live@[k] < pool@.len(),
    ensures
        r == first_producer(picked(pool@, live@), *h),
{
    let ghost m = picked(pool@, live@);
    let n = live.len();
    let mut i: usize = 0;
    while i < n
        invariant
            i <= n,
            n == live@.len(),
            m == picked(pool@, live@),
            forall|k: int| 0 <= k < live@.len() ==> #[trigger] live@[k] < pool@.len(),
            forall|j: int| 0 <= j < i ==> !has_output(#[trigger] m[j].1, *h),
        decreases n - i,
    {
        let p = live[i];
        assert(m[i as int] == pool@[p as int]);
        let no = pool[p].1.outputs.len();
        let mut k: usize = 0;
        while k < no
            invariant
                i < n,
                n == live@.len(),
                m == picked(pool@, live@),
                p < pool@.len(),
                m[i as int] == pool@[p as int],
                forall|j: int| 0 <= j < i ==> !has_output(#[trigger] m[j].1, *h),
                k <= no,
                no == pool@[p as int].1.outputs@.len(),
                forall|t: int| 0 <= t < k ==> pool@[p as int].1.outputs@[t].digest != *h,
            decreases no - k,
        {
            if pool[p].1.outputs[k].hash() == *h {
                proof {
                    lemma_first_producer(m, *h, i as int);
                }
                return i;
            }
            k = k + 1;
        }
        assert(!has_output(m[i as int].1, *h));
        i = i + 1;
    }
    proof {
        lemma_first_producer(m, *h, n as int);
    }
    n
}

/// The miner fee of a transaction whose fee can be computed.
pub fn miner_fee(utxos: &UtxoSet, tx: &Transaction) -> (r: u64)
    requires
        fee_defined(utxos@, *tx),
    ensures
        r == fee(utxos@, *tx),
{
    let all_inputs = input_value_sum(utxos, &tx.inputs);
    let all_outputs = output_value_sum(&tx.outputs);
    all_inputs - all_outputs
}

proof fn lemma_insert_position_suffix(s: Seq<PoolEntry>, u: UtxoMap, f: int, j: int)
    requires
        0 <= j <= s.len(),
        forall|t: int| j <= t < s.len() ==> fee(u, #[trigger] s[t].1) > f,
    ensures
        insert_position(s, u, f) == insert_position(s.take(j), u, f),
    decreases s.len(),
{
    if j < s.len() {
        assert(fee(u, s[s.len() - 1].1) > f);
        let p = s.drop_last();
        assert forall|t: int| j <= t < p.len() implies fee(u, #[trigger] p[t].1) > f by {
            assert(p[t] == s[t]);
        }
        lemma_insert_position_suffix(p, u, f, j);
        assert(p.take(j) =~= s.take(j));
    } else {
        assert(s.take(j) =~= s);
    }
}

/// Sorts the pool by ascending miner fee, keeping the order of entries with
/// equal fees.
pub fn sort_pool_by_fee(pool: &mut Vec<PoolEntry>, utxos: &UtxoSet)
    requires
        old(pool)@.len() >= 2 ==> forall|i: int|
            0 <= i < old(pool)@.len() ==> fee_defined(utxos@, #[trigger] old(pool)@[i].1),
    ensures
        final(pool)@ == sort_by_fee(old(pool)@, utxos@),
{
    let ghost m = pool@;
    let n = pool.len();
    if n < 2 {
        proof {
            if n == 1 {
                let e = Seq::<PoolEntry>::empty();
                assert(m.drop_last() =~= e);
                assert(sort_by_fee(e, utxos@) == e);
                assert(insert_position(e, utxos@, fee(utxos@, m.last().1)) == 0);
                assert(m =~= e.insert(0, m.last()));
            } else {
                assert(m =~= Seq::<PoolEntry>::empty());
            }
        }
        return;
    }
    let mut fees: Vec<u64> = Vec::new();
    let mut k: usize = 0;
    while k < n
        invariant
            k <= n,
            n == m.len(),
            pool@ == m,
            forall|i: int| 0 <= i < m.len() ==> fee_defined(utxos@, #[trigger] m[i].1),
            fees@.len() == k,
            forall|i: int| 0 <= i < k ==> fees@[i] == fee(utxos@, #[trigger] m[i].1),
        decreases n - k,
    {
        assert(fee_defined(utxos@, m[k as int].1));
        let f = miner_fee(utxos, &pool[k].1);
        fees.push(f);
        k = k + 1;
    }
    let mut i: usize = 1;
    proof {
        let e = Seq::<PoolEntry>::empty();
        let t1 = m.take(1);
        assert(t1.drop_last() =~= e);
        assert(sort_by_fee(e, utxos@) == e);
        assert(t1.last() == m[0]);
        assert(insert_position(e, utxos@, fee(utxos@, m[0].1)) == 0);
        assert(t1 =~= e.insert(0, m[0]));
        assert(pool@.take(1) =~= t1);
    }
    while i < n
        invariant
            1 <= i <= n,
            n == m.len(),
            pool@.len() == n,
            fees@.len() == n,
            pool@.take(i as int) == sort_by_fee(m.take(i as int), utxos@),
            pool@.skip(i as int) == m.skip(i as int),
            forall|t: int| 0 <= t < n ==> fees@[t] == fee(utxos@, #[trigger] pool@[t].1),
        decreases n - i,
    {
        let ghost before = pool@;
        let ghost sorted = before.take(i as int);
        let entry = pool.remove(i);
        let f = fees.remove(i);
        assert(entry == m[i as int]) by {
            assert(before.skip(i as int)[0] == m.skip(i as int)[0]);
        }
        let mut j: usize = i;
        while j > 0 && fees[j - 1] > f
            invariant
                j <= i,
                i < n,
                before.len() == n,
                sorted == before.take(i as int),
                pool@ == before.remove(i as int),
                fees@.len() == n - 1,
                forall|t: int| 0 <= t < n - 1 ==> fees@[t] == fee(utxos@, #[trigger] pool@[t].1),
                f == fee(utxos@, entry.1),
                forall|t: int| j <= t < i ==> fee(utxos@, #[trigger] sorted[t].1) > f,
            decreases j,
        {
            assert(before.remove(i as int)[j - 1] == before[j - 1]);
            assert(pool@[j - 1] == sorted[j - 1]);
            j = j - 1;
        }
        proof {
            lemma_insert_position_suffix(sorted, utxos@, f as int, j as int);
            if j > 0 {
                assert(before.remove(i as int)[j - 1] == before[j - 1]);
                assert(pool@[j - 1] == sorted[j - 1]);
                assert(sorted.take(j as int).last() == sorted[j - 1]);
                assert(sorted.take(j as int).len() == j);
            } else {
                assert(sorted.take(0) =~= Seq::<PoolEntry>::empty());
            }
            assert(insert_position(sorted, utxos@, f as int) == j);
            assert(m.take(i + 1).drop_last() =~= m.take(i as int));
            assert(m.take(i + 1).last() == m[i as int]);
        }
        pool.insert(j, entry);
        fees.insert(j, f);
        proof {
            assert(pool@.take(i + 1) =~= sorted.insert(j as int, entry));
            let ghost ps = pool@.skip(i + 1);
            let ghost ms = m.skip(i + 1);
            assert forall|t: int| 0 <= t < n - (i + 1) implies #[trigger] ps[t] == ms[t] by {
                assert(before.skip(i as int)[t + 1] == m.skip(i as int)[t + 1]);
                assert(pool@[i + 1 + t] == before.remove(i as int)[i + t]);
            }
            assert(pool@.skip(i + 1) =~= m.skip(i + 1));
            assert forall|t: int| 0 <= t < n implies fees@[t] == fee(utxos@, #[trigger] pool@[t].1) by {
                if t < j {
                } else if t > j {
                }
            }
        }
        i = i + 1;
    }
    proof {
        assert(pool@.take(n as int) =~= pool@);
        assert(m.take(n as int) =~= m);
    }
}

/// Finds the first pooled transaction with an output of digest `h`.
pub fn find_producer(pool: &Vec<PoolEntry>, h: &types::Hash) -> (r: usize)
    ensures
        r == first_producer(pool@, *h),
{
    let n = pool.len();
    let mut i: usize = 0;
    while i < n
        invariant
            i <= n,
            n == pool@.len(),
            forall|j: int| 0 <= j < i ==> !has_output(#[trigger] pool@[j].1, *h),
        decreases n - i,
    {
        let no = pool[i].1.outputs.len();
        let mut k: usize = 0;
        while k < no
            invariant
                i < n,
                n == pool@.len(),
                forall|j: int| 0 <= j < i ==> !has_output(#[trigger] pool@[j].1, *h),
                k <= no,
                no == pool@[i as int].1.outputs@.len(),
                forall|t: int| 0 <= t < k ==> pool@[i as int].1.outputs@[t].digest != *h,
            decreases no - k,
        {
            if pool[i].1.outputs[k].hash() == *h {
                proof {
                    lemma_first_producer(pool@, *h, i as int);
                }
                return i;
            }
            k = k + 1;
        }
        assert(!has_output(pool@[i as int].1, *h));
        i = i + 1;
    }
    proof {
        lemma_first_producer(pool@, *h, n as int);
    }
    n
}

proof fn lemma_first_producer(m: Seq<PoolEntry>, h: types::Hash, i: int)
    requires
        0 <= i <= m.len(),
        forall|j: int| 0 <= j < i ==> !has_output(#[trigger] m[j].1, h),
        i == m.len() || has_output(m[i].1, h),
    ensures
        first_producer(m, h) == i,
    decreases i,
{
    if i > 0 {
        assert(!has_output(m[0].1, h));
        let t = m.drop_first();
        assert forall|j: int| 0 <= j < i - 1 implies !has_output(#[trigger] t[j].1, h) by {
            assert(t[j] == m[j + 1]);
        }
        if i < m.len() {
            assert(t[i - 1] == m[i]);
        }
        lemma_first_producer(t, h, i - 1);
    }
}

} // verus!
