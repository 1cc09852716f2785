use btclib::types::{PublicKey, TransactionOutput};
use btclib::u256::U256;
use btclib::utxo::UtxoSet;

fn h(n: u64) -> btclib::types::Hash {
    btclib::types::Hash(U256::from_u64(n))
}

fn out(value: u64) -> TransactionOutput {
    TransactionOutput { value, unique_id: 1, pubkey: PublicKey([3u8; 33]), digest: h(value) }
}

#[test]
fn insert_then_get() {
    let mut s = UtxoSet::new();
    assert_eq!(s.len(), 0);
    s.insert(h(1), true, out(10));
    s.insert(h(2), false, out(20));
    assert_eq!(s.len(), 2);
    let (m, o) = s.get(&h(1)).unwrap();
    assert!(m);
    assert_eq!(o.value, 10);
    assert!(s.get(&h(3)).is_none());
}

#[test]
fn insert_replaces() {
    let mut s = UtxoSet::new();
    s.insert(h(1), true, out(10));
    s.insert(h(1), false, out(11));
    assert_eq!(s.len(), 1);
    let (m, o) = s.get(&h(1)).unwrap();
    assert!(!m);
    assert_eq!(o.value, 11);
}

#[test]
fn remove_and_unmark() {
    let mut s = UtxoSet::new();
    s.insert(h(1), true, out(10));
    s.insert(h(2), true, out(20));
    s.unmark(&h(2));
    s.unmark(&h(9));
    assert_eq!(s.get(&h(2)).unwrap().0, false);
    assert_eq!(s.get(&h(1)).unwrap().0, true);
    s.remove(&h(1));
    s.remove(&h(9));
    assert!(!s.contains_key(&h(1)));
    assert!(s.contains_key(&h(2)));
    assert_eq!(s.len(), 1);
    assert_eq!(s.entries().len(), 1);
    assert_eq!(s.entries()[0].hash, h(2));
}
