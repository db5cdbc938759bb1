use albatross_sync::mempool::{BlockTransaction, Mempool, TransactionTopic, VerifyErr};
use albatross_sync::mempool_state::MempoolState;
use albatross_sync::transaction::{
    AccountType, IncomingStakingTransactionData, OutgoingStakingTransactionProof, Transaction,
    TRANSACTION_VALIDITY_WINDOW,
};

fn addr(n: u8) -> [u8; 20] {
    [n; 20]
}

fn tx(id: u8, sender: u8, value: u64, fee: u64, size: usize, start: u32) -> Transaction {
    Transaction {
        hash: [id; 32],
        sender: addr(sender),
        sender_type: AccountType::Basic,
        recipient: addr(200),
        recipient_type: AccountType::Basic,
        value,
        fee,
        validity_start_height: start,
        serialized_size: size,
        outgoing_staking: None,
        incoming_staking: None,
    }
}

const RICH: Option<u64> = Some(1_000_000_000);

fn chain(t: Transaction, sender_balance: Option<u64>) -> BlockTransaction {
    BlockTransaction { tx: t, sender_balance, in_validity_window: false }
}

#[test]
fn fee_ordering_for_block() {
    let mut m = Mempool::new();
    // Fees per byte 10, 30 and 20 at 100 bytes each.
    let a = tx(1, 1, 5, 1000, 100, 1);
    let b = tx(2, 2, 5, 3000, 100, 1);
    let c = tx(3, 3, 5, 2000, 100, 1);
    for t in [a, b, c] {
        assert_eq!(m.add_transaction(&t, 1, RICH, false), Ok(()));
    }
    let got = m.get_transactions_for_block(250);
    assert_eq!(got.len(), 2);
    assert_eq!(got[0].hash, b.hash);
    assert_eq!(got[1].hash, c.hash);
    assert_eq!(m.num_transactions(), 1);
    assert!(m.contains_transaction_by_hash(&a.hash));
    assert!(!m.contains_transaction_by_hash(&b.hash));
}

#[test]
fn block_takes_nothing_when_first_does_not_fit() {
    let mut m = Mempool::new();
    m.add_transaction(&tx(1, 1, 5, 1000, 100, 1), 1, RICH, false).unwrap();
    assert!(m.get_transactions_for_block(99).is_empty());
    assert_eq!(m.num_transactions(), 1);
    assert_eq!(m.get_transactions_for_block(100).len(), 1);
    assert_eq!(m.num_transactions(), 0);
    assert!(m.get_transactions_for_block(1000).is_empty());
}

#[test]
fn reorg_reinstates_transaction() {
    let mut m = Mempool::new();
    let t = tx(7, 1, 50, 10, 100, 5);
    m.add_transaction(&t, 5, Some(1000), false).unwrap();
    let hashes_before = m.get_transaction_hashes();
    m.mempool_update(5, &vec![chain(t, Some(940))], &Vec::new());
    assert!(!m.contains_transaction_by_hash(&t.hash));
    m.mempool_update(5, &Vec::new(), &vec![chain(t, Some(1000))]);
    assert_eq!(m.get_transaction_by_hash(&t.hash), Some(t));
    assert_eq!(m.get_transaction_hashes(), hashes_before);
    assert_eq!(m.get_transactions(), vec![t]);
}

#[test]
fn reverted_transaction_skipped_when_included_or_unpaid() {
    let mut m = Mempool::new();
    let t = tx(7, 1, 50, 10, 100, 5);
    let mut included = chain(t, Some(1000));
    included.in_validity_window = true;
    m.mempool_update(5, &Vec::new(), &vec![included]);
    assert_eq!(m.num_transactions(), 0);
    m.mempool_update(5, &Vec::new(), &vec![chain(t, Some(59))]);
    assert_eq!(m.num_transactions(), 0);
    m.mempool_update(5, &Vec::new(), &vec![chain(t, None)]);
    assert_eq!(m.num_transactions(), 0);
    m.mempool_update(5, &Vec::new(), &vec![chain(t, Some(60))]);
    assert_eq!(m.num_transactions(), 1);
}

#[test]
fn aging_removes_expired() {
    let mut m = Mempool::new();
    let old_tx = tx(1, 1, 1, 1, 10, 1);
    let new_tx = tx(2, 2, 1, 1, 10, 100);
    m.add_transaction(&old_tx, 100, RICH, false).unwrap();
    m.add_transaction(&new_tx, 100, RICH, false).unwrap();
    // Next height is TRANSACTION_VALIDITY_WINDOW + 1: the first one expired.
    m.mempool_update(TRANSACTION_VALIDITY_WINDOW, &Vec::new(), &Vec::new());
    assert!(!m.contains_transaction_by_hash(&old_tx.hash));
    assert!(m.contains_transaction_by_hash(&new_tx.hash));
}

#[test]
fn adopted_unknown_transaction_evicts_unpaid() {
    let mut m = Mempool::new();
    let t1 = tx(1, 1, 40, 0, 10, 1);
    let t2 = tx(2, 1, 40, 0, 10, 1);
    let t3 = tx(3, 1, 10, 0, 10, 1);
    for t in [t1, t2, t3] {
        m.add_transaction(&t, 1, Some(100), false).unwrap();
    }
    // Another transaction of the sender was mined; the balance is now 55.
    let mined = tx(9, 1, 45, 0, 10, 1);
    m.mempool_update(1, &vec![chain(mined, Some(55))], &Vec::new());
    assert!(m.contains_transaction_by_hash(&t1.hash));
    assert!(!m.contains_transaction_by_hash(&t2.hash));
    assert!(m.contains_transaction_by_hash(&t3.hash));
}

#[test]
fn add_transaction_errors() {
    let mut m = Mempool::new();
    let t = tx(1, 1, 10, 1, 10, 5);
    assert_eq!(m.add_transaction(&t, 5, Some(11), false), Ok(()));
    assert_eq!(m.add_transaction(&t, 5, Some(11), false), Err(VerifyErr::Known));
    let mut bad = tx(2, 1, 10, 1, 0, 5);
    assert_eq!(m.add_transaction(&bad, 5, RICH, false), Err(VerifyErr::Malformed));
    bad.serialized_size = 10;
    assert_eq!(m.add_transaction(&bad, 4, RICH, false), Err(VerifyErr::InvalidAtHeight));
    assert_eq!(m.add_transaction(&bad, 5, RICH, true), Err(VerifyErr::AlreadyIncluded));
    assert_eq!(m.add_transaction(&bad, 5, None, false), Err(VerifyErr::NoAccount));
    // 11 already pending: 11 + 11 does not fit in 21.
    assert_eq!(m.add_transaction(&bad, 5, Some(21), false), Err(VerifyErr::InsufficientFunds));
    assert_eq!(m.add_transaction(&bad, 5, Some(22), false), Ok(()));
    assert_eq!(m.num_transactions(), 2);
}

#[test]
fn staking_actor_at_most_once() {
    let mut m = Mempool::new();
    let mut a = tx(1, 1, 0, 1, 10, 1);
    a.sender_type = AccountType::Staking;
    a.outgoing_staking = Some(OutgoingStakingTransactionProof::DeleteValidator { signer: addr(50) });
    let mut b = tx(2, 2, 0, 1, 10, 1);
    b.sender_type = AccountType::Staking;
    b.outgoing_staking = Some(OutgoingStakingTransactionProof::DeleteValidator { signer: addr(50) });
    assert_eq!(m.add_transaction(&a, 1, RICH, false), Ok(()));
    assert_eq!(m.add_transaction(&b, 1, RICH, false), Err(VerifyErr::StakingConflict));
    let mut c = tx(3, 3, 0, 1, 10, 1);
    c.recipient_type = AccountType::Staking;
    c.incoming_staking = Some(IncomingStakingTransactionData::CreateStaker { signer: addr(50) });
    // A different set: accepted.
    assert_eq!(m.add_transaction(&c, 1, RICH, false), Ok(()));
    let mut d = tx(4, 4, 0, 1, 10, 1);
    d.recipient_type = AccountType::Staking;
    d.incoming_staking = Some(IncomingStakingTransactionData::CreateStaker { signer: addr(50) });
    assert_eq!(m.add_transaction(&d, 1, RICH, false), Err(VerifyErr::StakingConflict));
    // Once the first leaves, the actor is free again.
    m.get_transactions_for_block(10_000);
    assert_eq!(m.add_transaction(&b, 1, RICH, false), Ok(()));
}

#[test]
fn put_then_remove_restores_state() {
    let mut s = MempoolState::new();
    let base = tx(1, 1, 10, 2, 10, 1);
    assert!(s.put(&base));
    let mut t = tx(2, 1, 5, 1, 10, 1);
    t.sender_type = AccountType::Staking;
    t.outgoing_staking = Some(OutgoingStakingTransactionProof::Unstake { signer: addr(9) });
    assert!(s.put(&t));
    assert!(!s.put(&t));
    assert_eq!(s.sender_total(&addr(1)), 18);
    assert!(s.staking_conflict(&t));
    assert_eq!(s.remove(&t.hash), Some(t));
    assert_eq!(s.remove(&t.hash), None);
    assert_eq!(s.sender_total(&addr(1)), 12);
    assert_eq!(s.len(), 1);
    assert!(!s.staking_conflict(&t));
    assert!(s.contains(&base.hash));
    assert_eq!(s.get(&base.hash), Some(base));
}

#[test]
fn sender_total_sums_pending_values() {
    let mut s = MempoolState::new();
    assert!(s.put(&tx(1, 1, 10, 1, 10, 1)));
    assert!(s.put(&tx(2, 2, 20, 2, 10, 1)));
    assert!(s.put(&tx(3, 1, 30, 3, 10, 1)));
    assert_eq!(s.sender_total(&addr(1)), 44);
    assert_eq!(s.sender_total(&addr(2)), 22);
    assert_eq!(s.sender_total(&addr(3)), 0);
    assert!(s.has_sender(&addr(2)));
    s.remove(&[2; 32]);
    assert!(!s.has_sender(&addr(2)));
    assert_eq!(s.sender_total(&addr(2)), 0);
}

#[test]
fn best_and_oldest() {
    let mut s = MempoolState::new();
    assert!(s.best_by_fee().is_none());
    assert!(s.oldest().is_none());
    s.put(&tx(1, 1, 1, 500, 10, 30));
    s.put(&tx(2, 2, 1, 900, 10, 20));
    s.put(&tx(3, 3, 1, 100, 10, 10));
    assert_eq!(s.best_by_fee().unwrap().hash, [2; 32]);
    assert_eq!(s.oldest().unwrap().hash, [3; 32]);
    assert_eq!(s.transaction_at(0).hash, [1; 32]);
}

#[test]
fn transaction_values() {
    let t = tx(1, 1, 7, 3, 4, 10);
    assert_eq!(t.total_value(), 10);
    assert_eq!(t.fee_per_byte(), 750);
    assert!(t.is_valid_at(10));
    assert!(!t.is_valid_at(9));
    assert!(t.is_valid_at(10 + TRANSACTION_VALIDITY_WINDOW - 1));
    assert!(!t.is_valid_at(10 + TRANSACTION_VALIDITY_WINDOW));
    assert!(t.is_well_formed());
    assert_eq!(TransactionTopic::NAME, "transactions");
    assert_eq!(TransactionTopic::BUFFER_SIZE, 1024);
    assert!(TransactionTopic::VALIDATE);
}

#[test]
fn executor_starts_and_stops_once() {
    let mut m = Mempool::new();
    assert!(m.start_executor());
    assert!(!m.start_executor());
    assert!(m.stop_executor());
    assert!(!m.stop_executor());
}
