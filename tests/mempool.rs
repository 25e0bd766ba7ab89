use std::cmp::Ordering;

use mempool::{hash_tx, Error, Mempool, MempoolTx, Transaction};

fn tx(sender: u8, nonce: u64, payload: Vec<u8>) -> Transaction {
    Transaction {
        sender: [sender; 32],
        nonce,
        payload,
        signature: [0u8; 64],
    }
}

fn nonces(txs: &[Transaction]) -> Vec<u64> {
    txs.iter().map(|t| t.nonce).collect()
}

#[test]
fn test_mempool_ordering() {
    let mut mempool = Mempool::new(1000);

    // Create transactions with different priorities
    let tx1 = Transaction {
        sender: [1u8; 32],
        nonce: 1,
        payload: vec![1, 2, 3],
        signature: [0u8; 64],
    };

    let tx2 = Transaction {
        sender: [2u8; 32],
        nonce: 2,
        payload: vec![4, 5, 6],
        signature: [0u8; 64],
    };

    // Add transactions
    mempool.add_tx(tx1.clone(), 10).unwrap();
    mempool.add_tx(tx2.clone(), 20).unwrap();

    // Check ordering
    let top_txs = mempool.get_top(2);
    assert_eq!(top_txs.len(), 2);
    assert_eq!(top_txs[0].nonce, 2); // Higher priority first
    assert_eq!(top_txs[1].nonce, 1);
}

#[test]
fn scenario_two_priorities() {
    let mut m = Mempool::new(1000);
    assert_eq!(m.add_tx(tx(7, 1, vec![]), 10), Ok(()));
    assert_eq!(m.add_tx(tx(7, 2, vec![]), 20), Ok(()));
    assert_eq!(nonces(&m.get_top(2)), vec![2, 1]);
}

#[test]
fn scenario_capacity_one() {
    let mut m = Mempool::new(1);
    let a = tx(1, 1, vec![1]);
    let b = tx(2, 1, vec![2]);
    assert_eq!(m.add_tx(a.clone(), 5), Ok(()));
    assert_eq!(m.add_tx(b, 9), Err(Error::CapacityExceeded));
    assert_eq!(m.get_top(10), vec![a]);
}

#[test]
fn scenario_remove_then_remove_again() {
    let mut m = Mempool::new(10);
    let a = tx(1, 1, vec![1]);
    m.add_tx(a.clone(), 5).unwrap();
    m.remove_included(&[a.clone()]);
    assert!(m.get_top(10).is_empty());
    m.remove_included(&[a]);
    assert!(m.get_top(10).is_empty());
    assert_eq!(m.len(), 0);
}

#[test]
fn duplicate_submission_is_absorbed() {
    let mut m = Mempool::new(10);
    let a = tx(3, 4, vec![9, 9]);
    assert_eq!(m.add_tx(a.clone(), 1), Ok(()));
    assert_eq!(m.add_tx(a.clone(), 100), Ok(()));
    assert_eq!(m.len(), 1);
    assert_eq!(m.get_top(10), vec![a.clone()]);
    // A second submission keeps the first priority: a later entry of
    // priority 50 comes before it.
    m.add_tx(tx(3, 5, vec![]), 50).unwrap();
    assert_eq!(nonces(&m.get_top(10)), vec![5, 4]);
}

#[test]
fn resigned_copy_is_a_duplicate() {
    let mut m = Mempool::new(10);
    let a = tx(3, 4, vec![9]);
    let mut b = a.clone();
    b.signature = [7u8; 64];
    assert!(a != b);
    m.add_tx(a.clone(), 1).unwrap();
    assert_eq!(m.add_tx(b, 2), Ok(()));
    assert_eq!(m.get_top(10), vec![a]);
}

#[test]
fn full_mempool_refuses_and_keeps_contents() {
    let mut m = Mempool::new(3);
    for i in 0..3u64 {
        assert_eq!(m.add_tx(tx(1, i, vec![]), 10 + i), Ok(()));
    }
    let before = m.get_top(10);
    assert_eq!(m.add_tx(tx(1, 99, vec![]), 1000), Err(Error::CapacityExceeded));
    assert_eq!(m.get_top(10), before);
    assert_eq!(m.len(), 3);
    assert_eq!(m.max_size(), 3);
    // A duplicate of a held transaction is still accepted when full.
    assert_eq!(m.add_tx(tx(1, 0, vec![]), 7), Ok(()));
}

#[test]
fn zero_capacity_refuses_everything() {
    let mut m = Mempool::new(0);
    assert_eq!(m.add_tx(tx(1, 1, vec![]), 1), Err(Error::CapacityExceeded));
    assert!(m.get_top(5).is_empty());
}

#[test]
fn top_is_descending_and_truncated() {
    let mut m = Mempool::new(100);
    let prios = [30u64, 10, 50, 20, 40];
    for (i, p) in prios.iter().enumerate() {
        m.add_tx(tx(1, i as u64, vec![]), *p).unwrap();
    }
    // nonce i has priority prios[i]
    assert_eq!(nonces(&m.get_top(3)), vec![2, 4, 0]);
    assert_eq!(nonces(&m.get_top(10)), vec![2, 4, 0, 3, 1]);
    assert!(m.get_top(0).is_empty());
}

#[test]
fn equal_priorities_keep_submission_order() {
    let mut m = Mempool::new(100);
    m.add_tx(tx(1, 1, vec![]), 5).unwrap();
    m.add_tx(tx(1, 2, vec![]), 5).unwrap();
    m.add_tx(tx(1, 3, vec![]), 9).unwrap();
    m.add_tx(tx(1, 4, vec![]), 5).unwrap();
    assert_eq!(nonces(&m.get_top(10)), vec![3, 1, 2, 4]);
}

#[test]
fn retrieval_twice_gives_same_sequence() {
    let mut m = Mempool::new(100);
    for i in 0..6u64 {
        m.add_tx(tx(2, i, vec![i as u8]), i % 3).unwrap();
    }
    let first = m.get_top(4);
    let second = m.get_top(4);
    assert_eq!(first, second);
    assert_eq!(first.len(), 4);
}

#[test]
fn removal_keeps_other_entries_in_order() {
    let mut m = Mempool::new(100);
    for i in 0..5u64 {
        m.add_tx(tx(1, i, vec![]), 100 - i).unwrap();
    }
    let never_held = tx(9, 9, vec![9]);
    m.remove_included(&[tx(1, 1, vec![]), never_held, tx(1, 3, vec![])]);
    assert_eq!(nonces(&m.get_top(10)), vec![0, 2, 4]);
    assert_eq!(m.len(), 3);
    // Removal frees room under the capacity.
    let mut small = Mempool::new(1);
    small.add_tx(tx(1, 1, vec![]), 1).unwrap();
    small.remove_included(&[tx(1, 1, vec![])]);
    assert_eq!(small.add_tx(tx(1, 2, vec![]), 1), Ok(()));
}

#[test]
fn removal_by_resigned_copy() {
    let mut m = Mempool::new(10);
    let a = tx(4, 4, vec![4]);
    let mut b = a.clone();
    b.signature = [1u8; 64];
    m.add_tx(a, 3).unwrap();
    m.remove_included(&[b]);
    assert!(m.get_top(10).is_empty());
}

#[test]
fn identity_digest_value() {
    let t = tx(1, 1, vec![1, 2, 3]);
    let expected: [u8; 32] = [
        150, 179, 95, 157, 95, 90, 9, 182, 141, 184, 227, 47, 195, 97, 55, 249, 18, 97, 51, 74,
        11, 94, 49, 48, 205, 56, 211, 76, 107, 166, 163, 22,
    ];
    assert_eq!(hash_tx(&t), expected);
}

#[test]
fn identity_ignores_signature_only() {
    let a = tx(1, 1, vec![1, 2, 3]);
    let mut b = a.clone();
    b.signature = [5u8; 64];
    assert_eq!(hash_tx(&a), hash_tx(&b));
    assert_ne!(hash_tx(&a), hash_tx(&tx(1, 2, vec![1, 2, 3])));
    assert_ne!(hash_tx(&a), hash_tx(&tx(2, 1, vec![1, 2, 3])));
    assert_ne!(hash_tx(&a), hash_tx(&tx(1, 1, vec![1, 2])));
}

#[test]
fn entry_order_and_equality() {
    let hi = MempoolTx { transaction: tx(1, 1, vec![]), timestamp: 0, priority: 9 };
    let lo = MempoolTx { transaction: tx(1, 2, vec![]), timestamp: 0, priority: 1 };
    assert_eq!(hi.partial_cmp(&lo), Some(Ordering::Less));
    assert_eq!(lo.partial_cmp(&hi), Some(Ordering::Greater));
    assert!(hi < lo);
    let same = MempoolTx { transaction: tx(1, 1, vec![]), timestamp: 5, priority: 3 };
    assert!(hi == same);
    assert!(hi != lo);
    let copy = hi.clone();
    assert!(copy == hi);
    assert_eq!(copy.priority, 9);
}
