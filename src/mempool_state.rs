use vstd::prelude::*;

use crate::keyed_queue::{
    no_entries, queue_contents, queue_new, queue_peek, queue_push, queue_remove, HashQueue,
};
use crate::primitives::{bytes_eq, Address, Blake2bHash};
use crate::transaction::Transaction;

verus! {

/// The in-flight balance of one sender: the sum of `total_value` over its
/// transactions in the mempool, and how many there are.
#[derive(Clone, Copy, Debug)]
pub struct SenderPendingState {
    pub sender: Address,
    pub total: u64,
    pub num_txns: usize,
}

/// The indices over the pending transactions.
pub struct MempoolState {
    pub(crate) transactions: Vec<Transaction>,
    pub(crate) transactions_by_fee: HashQueue,
    pub(crate) transactions_by_age: HashQueue,
    pub(crate) state_by_sender: Vec<SenderPendingState>,
    pub(crate) outgoing_validators: Vec<Address>,
    pub(crate) outgoing_stakers: Vec<Address>,
    pub(crate) creating_validators: Vec<Address>,
    pub(crate) creating_stakers: Vec<Address>,
}

/// The mathematical value of a `MempoolState`.
pub struct MempoolView {
    pub transactions: Seq<Transaction>,
    pub by_fee: Map<Blake2bHash, u64>,
    pub by_age: Map<Blake2bHash, u64>,
    pub senders: Seq<SenderPendingState>,
    pub outgoing_validators: Seq<Address>,
    pub outgoing_stakers: Seq<Address>,
    pub creating_validators: Seq<Address>,
    pub creating_stakers: Seq<Address>,
}

/// Priority in the fee index: the fee per byte.
pub open spec fn fee_priority(tx: Transaction) -> u64 {
    tx.fee_rate() as u64
}

/// Priority in the age index: the older the validity start, the higher.
pub open spec fn age_priority(tx: Transaction) -> u64 {
    (u32::MAX - tx.validity_start_height) as u64
}

pub open spec fn sender_share(tx: Transaction, a: Address) -> int {
    if tx.sender == a {
        tx.total_value_spec()
    } else {
        0
    }
}

pub open spec fn sender_one(tx: Transaction, a: Address) -> int {
    if tx.sender == a {
        1
    } else {
        0
    }
}

/// Sum of `total_value` over the transactions sent by `a`.
pub open spec fn sender_total(txs: Seq<Transaction>, a: Address) -> int
    decreases txs.len(),
{
    if txs.len() == 0 {
        0
    } else {
        sender_total(txs.drop_last(), a) + sender_share(txs.last(), a)
    }
}

/// Number of transactions sent by `a`.
pub open spec fn sender_count(txs: Seq<Transaction>, a: Address) -> int
    decreases txs.len(),
{
    if txs.len() == 0 {
        0
    } else {
        sender_count(txs.drop_last(), a) + sender_one(txs.last(), a)
    }
}

pub open spec fn has_tx(txs: Seq<Transaction>, h: Blake2bHash) -> bool {
    exists|i: int| 0 <= i < txs.len() && (#[trigger] txs[i]).hash == h
}

/// Position of the transaction with hash `h`.
pub open spec fn tx_index(txs: Seq<Transaction>, h: Blake2bHash) -> int {
    choose|i: int| 0 <= i < txs.len() && (#[trigger] txs[i]).hash == h
}

pub open spec fn has_sender(s: Seq<SenderPendingState>, a: Address) -> bool {
    exists|k: int| 0 <= k < s.len() && (#[trigger] s[k]).sender == a
}

/// Position of the entry of sender `a`.
pub open spec fn sender_index(s: Seq<SenderPendingState>, a: Address) -> int {
    choose|k: int| 0 <= k < s.len() && (#[trigger] s[k]).sender == a
}

pub open spec fn with_signer(s: Seq<Address>, a: Option<Address>) -> Seq<Address> {
    match a {
        Some(a) => s.push(a),
        None => s,
    }
}

pub open spec fn without_signer(s: Seq<Address>, a: Option<Address>) -> Seq<Address> {
    match a {
        Some(a) => if s.contains(a) {
            s.remove(s.index_of(a))
        } else {
            s
        },
        None => s,
    }
}

pub open spec fn signer_free(s: Seq<Address>, a: Option<Address>) -> bool {
    match a {
        Some(a) => !s.contains(a),
        None => true,
    }
}

impl MempoolView {
    pub open spec fn empty() -> MempoolView {
        MempoolView {
            transactions: Seq::empty(),
            by_fee: no_entries(),
            by_age: no_entries(),
            senders: Seq::empty(),
            outgoing_validators: Seq::empty(),
            outgoing_stakers: Seq::empty(),
            creating_validators: Seq::empty(),
            creating_stakers: Seq::empty(),
        }
    }

    pub open spec fn contains(self, h: Blake2bHash) -> bool {
        has_tx(self.transactions, h)
    }

    /// The transaction with hash `h`.
    pub open spec fn get(self, h: Blake2bHash) -> Transaction {
        self.transactions[tx_index(self.transactions, h)]
    }

    /// In-flight total of sender `a` (zero for a sender with no transaction).
    pub open spec fn pending_total(self, a: Address) -> int {
        sender_total(self.transactions, a)
    }

    /// No staking uniqueness set holds an actor that `tx` would add.
    pub open spec fn staking_free(self, tx: Transaction) -> bool {
        &&& signer_free(self.outgoing_validators, tx.deleting_validator())
        &&& signer_free(self.outgoing_stakers, tx.unstaking_staker())
        &&& signer_free(self.creating_validators, tx.created_validator())
        &&& signer_free(self.creating_stakers, tx.created_staker())
    }

    /// `tx` may be put: it is well formed, its staking actors are free and
    /// its sender's in-flight total stays a coin amount.
    pub open spec fn can_put(self, tx: Transaction) -> bool {
        &&& tx.wf()
        &&& self.transactions.len() + 1 < usize::MAX
        &&& self.staking_free(tx)
        &&& self.pending_total(tx.sender) + tx.total_value_spec() <= u64::MAX
    }

    pub open spec fn put(self, tx: Transaction) -> MempoolView {
        if self.contains(tx.hash) {
            self
        } else {
            MempoolView {
                transactions: self.transactions.push(tx),
                by_fee: self.by_fee.insert(tx.hash, fee_priority(tx)),
                by_age: self.by_age.insert(tx.hash, age_priority(tx)),
                senders: if has_sender(self.senders, tx.sender) {
                    let k = sender_index(self.senders, tx.sender);
                    let e = self.senders[k];
                    self.senders.update(
                        k,
                        SenderPendingState {
                            sender: e.sender,
                            total: (e.total + tx.total_value_spec()) as u64,
                            num_txns: (e.num_txns + 1) as usize,
                        },
                    )
                } else {
                    self.senders.push(
                        SenderPendingState {
                            sender: tx.sender,
                            total: tx.total_value_spec() as u64,
                            num_txns: 1,
                        },
                    )
                },
                outgoing_validators: with_signer(self.outgoing_validators, tx.deleting_validator()),
                outgoing_stakers: with_signer(self.outgoing_stakers, tx.unstaking_staker()),
                creating_validators: with_signer(self.creating_validators, tx.created_validator()),
                creating_stakers: with_signer(self.creating_stakers, tx.created_staker()),
            }
        }
    }

    pub open spec fn remove(self, h: Blake2bHash) -> MempoolView {
        if !self.contains(h) {
            self
        } else {
            let tx = self.get(h);
            let k = sender_index(self.senders, tx.sender);
            let e = self.senders[k];
            MempoolView {
                transactions: self.transactions.remove(tx_index(self.transactions, h)),
                by_fee: self.by_fee.remove(h),
                by_age: self.by_age.remove(h),
                senders: if e.num_txns == 1 {
                    self.senders.remove(k)
                } else {
                    self.senders.update(
                        k,
                        SenderPendingState {
                            sender: e.sender,
                            total: (e.total - tx.total_value_spec()) as u64,
                            num_txns: (e.num_txns - 1) as usize,
                        },
                    )
                },
                outgoing_validators: without_signer(self.outgoing_validators, tx.deleting_validator()),
                outgoing_stakers: without_signer(self.outgoing_stakers, tx.unstaking_staker()),
                creating_validators: without_signer(self.creating_validators, tx.created_validator()),
                creating_stakers: without_signer(self.creating_stakers, tx.created_staker()),
            }
        }
    }

    pub open spec fn txs_wf(self) -> bool {
        &&& self.transactions.len() < usize::MAX
        &&& forall|i: int| 0 <= i < self.transactions.len() ==> (#[trigger] self.transactions[i]).wf()
        &&& forall|i: int, j: int|
            0 <= i < self.transactions.len() && 0 <= j < self.transactions.len() && i != j
                ==> (#[trigger] self.transactions[i]).hash != (#[trigger] self.transactions[j]).hash
    }

    pub open spec fn queues_wf(self) -> bool {
        &&& forall|i: int| 0 <= i < self.transactions.len() ==> {
            let tx = #[trigger] self.transactions[i];
            &&& self.by_fee.contains_key(tx.hash)
            &&& self.by_fee[tx.hash] == fee_priority(tx)
            &&& self.by_age.contains_key(tx.hash)
            &&& self.by_age[tx.hash] == age_priority(tx)
        }
        &&& forall|h: Blake2bHash| #[trigger] self.by_fee.contains_key(h) ==> self.contains(h)
        &&& forall|h: Blake2bHash| #[trigger] self.by_age.contains_key(h) ==> self.contains(h)
    }

    pub open spec fn senders_wf(self) -> bool {
        &&& forall|k: int| 0 <= k < self.senders.len() ==> {
            let e = #[trigger] self.senders[k];
            &&& e.total == sender_total(self.transactions, e.sender)
            &&& e.num_txns == sender_count(self.transactions, e.sender)
            &&& e.num_txns > 0
        }
        &&& forall|k: int, l: int|
            0 <= k < self.senders.len() && 0 <= l < self.senders.len() && k != l
                ==> (#[trigger] self.senders[k]).sender != (#[trigger] self.senders[l]).sender
        &&& forall|i: int|
            0 <= i < self.transactions.len() ==> has_sender(
                self.senders,
                (#[trigger] self.transactions[i]).sender,
            )
    }

    pub open spec fn staking_wf(self) -> bool {
        &&& self.outgoing_validators.no_duplicates()
        &&& self.outgoing_stakers.no_duplicates()
        &&& self.creating_validators.no_duplicates()
        &&& self.creating_stakers.no_duplicates()
    }

    pub open spec fn wf(self) -> bool {
        &&& self.txs_wf()
        &&& self.queues_wf()
        &&& self.senders_wf()
        &&& self.staking_wf()
    }
}


proof fn lemma_sender_push(txs: Seq<Transaction>, tx: Transaction, a: Address)
    ensures
        sender_total(txs.push(tx), a) == sender_total(txs, a) + sender_share(tx, a),
        sender_count(txs.push(tx), a) == sender_count(txs, a) + sender_one(tx, a),
{
    assert(txs.push(tx).drop_last() =~= txs);
}

proof fn lemma_sender_bounds(txs: Seq<Transaction>, a: Address)
    ensures
        0 <= sender_count(txs, a) <= txs.len(),
        sender_total(txs, a) >= 0,
        sender_count(txs, a) == 0 ==> sender_total(txs, a) == 0,
        sender_count(txs, a) == 0 ==> forall|i: int|
            0 <= i < txs.len() ==> (#[trigger] txs[i]).sender != a,
    decreases txs.len(),
{
    if txs.len() > 0 {
        lemma_sender_bounds(txs.drop_last(), a);
        assert forall|i: int| 0 <= i < txs.len() && sender_count(txs, a) == 0 implies (
        #[trigger] txs[i]).sender != a by {
            if i < txs.len() - 1 {
                assert(txs[i] == txs.drop_last()[i]);
            }
        }
    }
}

proof fn lemma_sender_remove(txs: Seq<Transaction>, i: int, a: Address)
    requires
        0 <= i < txs.len(),
    ensures
        sender_total(txs.remove(i), a) == sender_total(txs, a) - sender_share(txs[i], a),
        sender_count(txs.remove(i), a) == sender_count(txs, a) - sender_one(txs[i], a),
    decreases txs.len(),
{
    if i == txs.len() - 1 {
        assert(txs.remove(i) =~= txs.drop_last());
    } else {
        lemma_sender_remove(txs.drop_last(), i, a);
        assert(txs.remove(i).drop_last() =~= txs.drop_last().remove(i));
        assert(txs.remove(i).last() == txs.last());
    }
}

/// The entry found for a sender is the only one.
proof fn lemma_sender_index(v: MempoolView, k: int)
    requires
        v.senders_wf(),
        0 <= k < v.senders.len(),
    ensures
        has_sender(v.senders, v.senders[k].sender),
        sender_index(v.senders, v.senders[k].sender) == k,
{
    let a = v.senders[k].sender;
    assert(has_sender(v.senders, a));
    let j = sender_index(v.senders, a);
    assert(v.senders[j].sender == a);
}

/// The transaction found for a hash is the only one.
pub(crate) proof fn lemma_tx_index(v: MempoolView, i: int)
    requires
        v.txs_wf(),
        0 <= i < v.transactions.len(),
    ensures
        v.contains(v.transactions[i].hash),
        tx_index(v.transactions, v.transactions[i].hash) == i,
{
    let h = v.transactions[i].hash;
    assert(has_tx(v.transactions, h));
    let j = tx_index(v.transactions, h);
    assert(v.transactions[j].hash == h);
}

proof fn lemma_address_index(s: Seq<Address>, k: int)
    requires
        s.no_duplicates(),
        0 <= k < s.len(),
    ensures
        s.contains(s[k]),
        s.index_of(s[k]) == k,
{
    assert(s.contains(s[k]));
    let j = s.index_of(s[k]);
    assert(s[j] == s[k]);
}

proof fn lemma_with_signer(s: Seq<Address>, a: Option<Address>)
    requires
        s.no_duplicates(),
        signer_free(s, a),
    ensures
        with_signer(s, a).no_duplicates(),
        without_signer(with_signer(s, a), a) == s,
{
    if let Some(x) = a {
        let t = s.push(x);
        assert forall|i: int, j: int| 0 <= i < t.len() && 0 <= j < t.len() && i != j implies t[i]
            != t[j] by {
            if i == s.len() {
                assert(s[j] == t[j]);
            } else if j == s.len() {
                assert(s[i] == t[i]);
            }
        }
        lemma_address_index(t, s.len() as int);
        assert(t.remove(s.len() as int) =~= s);
    }
}

proof fn lemma_without_signer(s: Seq<Address>, a: Option<Address>)
    requires
        s.no_duplicates(),
    ensures
        without_signer(s, a).no_duplicates(),
{
    if let Some(x) = a {
        if s.contains(x) {
            let k = s.index_of(x);
            let t = s.remove(k);
            assert forall|i: int, j: int| 0 <= i < t.len() && 0 <= j < t.len() && i != j implies t[i]
                != t[j] by {
                let i2 = if i < k { i } else { i + 1 };
                let j2 = if j < k { j } else { j + 1 };
                assert(t[i] == s[i2]);
                assert(t[j] == s[j2]);
            }
        }
    }
}

/// Putting a transaction that may be put keeps the indices well formed.
pub proof fn lemma_put_wf(v: MempoolView, tx: Transaction)
    requires
        v.wf(),
        v.contains(tx.hash) || v.can_put(tx),
    ensures
        v.put(tx).wf(),
{
    if !v.contains(tx.hash) {
        let w = v.put(tx);
        let txs = v.transactions;
        let n = txs.len() as int;
        assert forall|a: Address| #[trigger] sender_total(w.transactions, a) == sender_total(txs, a)
            + sender_share(tx, a) && sender_count(w.transactions, a) == sender_count(txs, a)
            + sender_one(tx, a) by {
            lemma_sender_push(txs, tx, a);
        }
        assert forall|i: int| 0 <= i < n implies #[trigger] w.transactions[i] == txs[i] by {}
        assert(w.transactions[n] == tx);
        // transactions
        assert forall|i: int, j: int|
            0 <= i < w.transactions.len() && 0 <= j < w.transactions.len() && i != j
                implies (#[trigger] w.transactions[i]).hash != (#[trigger] w.transactions[j]).hash by {
            if i == n {
                assert(txs[j] == w.transactions[j]);
            } else if j == n {
                assert(txs[i] == w.transactions[i]);
            }
        }
        assert(w.txs_wf());
        // queues
        assert forall|i: int| 0 <= i < w.transactions.len() implies {
            let t = #[trigger] w.transactions[i];
            &&& w.by_fee.contains_key(t.hash)
            &&& w.by_fee[t.hash] == fee_priority(t)
            &&& w.by_age.contains_key(t.hash)
            &&& w.by_age[t.hash] == age_priority(t)
        } by {
            if i < n {
                assert(txs[i] == w.transactions[i]);
                assert(txs[i].hash != tx.hash);
            }
        }
        assert forall|h: Blake2bHash| #[trigger] w.by_fee.contains_key(h) implies w.contains(h) by {
            if h == tx.hash {
                assert(w.transactions[n].hash == h);
            } else {
                let i = choose|i: int| 0 <= i < txs.len() && (#[trigger] txs[i]).hash == h;
                assert(w.transactions[i] == txs[i]);
            }
        }
        assert forall|h: Blake2bHash| #[trigger] w.by_age.contains_key(h) implies w.contains(h) by {
            if h == tx.hash {
                assert(w.transactions[n].hash == h);
            } else {
                let i = choose|i: int| 0 <= i < txs.len() && (#[trigger] txs[i]).hash == h;
                assert(w.transactions[i] == txs[i]);
            }
        }
        assert(w.queues_wf());
        // senders
        lemma_sender_bounds(txs, tx.sender);
        if has_sender(v.senders, tx.sender) {
            let k = sender_index(v.senders, tx.sender);
            assert forall|l: int| 0 <= l < w.senders.len() implies {
                let e = #[trigger] w.senders[l];
                &&& e.total == sender_total(w.transactions, e.sender)
                &&& e.num_txns == sender_count(w.transactions, e.sender)
                &&& e.num_txns > 0
            } by {
                assert(sender_total(w.transactions, w.senders[l].sender) == sender_total(txs, w.senders[l].sender) + sender_share(tx, w.senders[l].sender));
                lemma_sender_bounds(txs, w.senders[l].sender);
                if l != k {
                    assert(w.senders[l] == v.senders[l]);
                    assert(v.senders[l].sender != v.senders[k].sender);
                }
            }
            assert forall|i: int| 0 <= i < w.transactions.len() implies has_sender(
                w.senders,
                (#[trigger] w.transactions[i]).sender,
            ) by {
                if i == n {
                    assert(w.senders[k].sender == tx.sender);
                } else {
                    assert(w.transactions[i] == txs[i]);
                    assert(has_sender(v.senders, txs[i].sender));
                    let l = choose|l: int| 0 <= l < v.senders.len() && (#[trigger] v.senders[l]).sender == txs[i].sender;
                    assert(w.senders[l].sender == txs[i].sender);
                }
            }
        } else {
            assert(sender_count(txs, tx.sender) == 0) by {
                if sender_count(txs, tx.sender) != 0 {
                    assert(sender_count(txs, tx.sender) > 0);
                    lemma_sender_exists(txs, tx.sender);
                    let i = choose|i: int| 0 <= i < txs.len() && (#[trigger] txs[i]).sender == tx.sender;
                    assert(has_sender(v.senders, txs[i].sender));
                }
            }
            let m = v.senders.len() as int;
            assert forall|l: int| 0 <= l < w.senders.len() implies {
                let e = #[trigger] w.senders[l];
                &&& e.total == sender_total(w.transactions, e.sender)
                &&& e.num_txns == sender_count(w.transactions, e.sender)
                &&& e.num_txns > 0
            } by {
                assert(sender_total(w.transactions, w.senders[l].sender) == sender_total(txs, w.senders[l].sender) + sender_share(tx, w.senders[l].sender));
                if l != m {
                    assert(w.senders[l] == v.senders[l]);
                    assert(v.senders[l].sender != tx.sender);
                }
            }
            assert forall|k: int, l: int|
                0 <= k < w.senders.len() && 0 <= l < w.senders.len() && k != l
                    implies (#[trigger] w.senders[k]).sender != (#[trigger] w.senders[l]).sender by {
                if k == m {
                    assert(w.senders[l] == v.senders[l]);
                } else if l == m {
                    assert(w.senders[k] == v.senders[k]);
                }
            }
            assert forall|i: int| 0 <= i < w.transactions.len() implies has_sender(
                w.senders,
                (#[trigger] w.transactions[i]).sender,
            ) by {
                if i == n {
                    assert(w.senders[m].sender == tx.sender);
                } else {
                    assert(w.transactions[i] == txs[i]);
                    assert(has_sender(v.senders, txs[i].sender));
                    let l = choose|l: int| 0 <= l < v.senders.len() && (#[trigger] v.senders[l]).sender == txs[i].sender;
                    assert(w.senders[l].sender == txs[i].sender);
                }
            }
        }
        assert(w.senders_wf());
        lemma_with_signer(v.outgoing_validators, tx.deleting_validator());
        lemma_with_signer(v.outgoing_stakers, tx.unstaking_staker());
        lemma_with_signer(v.creating_validators, tx.created_validator());
        lemma_with_signer(v.creating_stakers, tx.created_staker());
    }
}

proof fn lemma_sender_exists(txs: Seq<Transaction>, a: Address)
    requires
        sender_count(txs, a) > 0,
    ensures
        exists|i: int| 0 <= i < txs.len() && (#[trigger] txs[i]).sender == a,
    decreases txs.len(),
{
    if txs.last().sender == a {
        assert(txs[txs.len() - 1].sender == a);
    } else {
        lemma_sender_exists(txs.drop_last(), a);
        let i = choose|i: int| 0 <= i < txs.drop_last().len() && (#[trigger] txs.drop_last()[i]).sender == a;
        assert(txs[i] == txs.drop_last()[i]);
    }
}

/// Removing a transaction keeps the indices well formed.
pub proof fn lemma_remove_wf(v: MempoolView, h: Blake2bHash)
    requires
        v.wf(),
    ensures
        v.remove(h).wf(),
{
    if v.contains(h) {
        let w = v.remove(h);
        let txs = v.transactions;
        let i = tx_index(txs, h);
        let tx = txs[i];
        let nt = w.transactions;
        assert(nt =~= txs.remove(i));
        assert forall|j: int| 0 <= j < nt.len() implies #[trigger] nt[j] == txs[if j < i { j } else { j + 1 }] && txs[if j < i { j } else { j + 1 }].hash != h by {
            let j2 = if j < i { j } else { j + 1 };
            assert(j2 != i);
        }
        assert forall|a: Address| #[trigger] sender_total(nt, a) == sender_total(txs, a)
            - sender_share(tx, a) && sender_count(nt, a) == sender_count(txs, a)
            - sender_one(tx, a) && sender_total(nt, a) >= 0 && sender_count(nt, a) >= 0 by {
            lemma_sender_remove(txs, i, a);
            lemma_sender_bounds(nt, a);
        }
        // transactions
        assert forall|j: int, l: int|
            0 <= j < nt.len() && 0 <= l < nt.len() && j != l
                implies (#[trigger] nt[j]).hash != (#[trigger] nt[l]).hash by {
            let j2 = if j < i { j } else { j + 1 };
            let l2 = if l < i { l } else { l + 1 };
            assert(nt[j] == txs[j2]);
            assert(nt[l] == txs[l2]);
        }
        assert(w.txs_wf());
        // queues
        assert forall|h2: Blake2bHash| #[trigger] w.by_fee.contains_key(h2) implies w.contains(h2) by {
            let j = choose|j: int| 0 <= j < txs.len() && (#[trigger] txs[j]).hash == h2;
            assert(j != i);
            let j2 = if j < i { j } else { j - 1 };
            assert(nt[j2] == txs[j]);
        }
        assert forall|h2: Blake2bHash| #[trigger] w.by_age.contains_key(h2) implies w.contains(h2) by {
            let j = choose|j: int| 0 <= j < txs.len() && (#[trigger] txs[j]).hash == h2;
            assert(j != i);
            let j2 = if j < i { j } else { j - 1 };
            assert(nt[j2] == txs[j]);
        }
        assert(w.queues_wf());
        // senders
        assert(has_sender(v.senders, tx.sender));
        let k = sender_index(v.senders, tx.sender);
        let e = v.senders[k];
        lemma_sender_remove(txs, i, tx.sender);
        lemma_sender_bounds(nt, tx.sender);
        if e.num_txns == 1 {
            let ns = w.senders;
            assert(ns =~= v.senders.remove(k));
            assert forall|l: int| 0 <= l < ns.len() implies #[trigger] ns[l] == v.senders[if l < k { l } else { l + 1 }] && v.senders[if l < k { l } else { l + 1 }].sender != tx.sender by {
                let l2 = if l < k { l } else { l + 1 };
                assert(l2 != k);
            }
            assert forall|l: int| 0 <= l < ns.len() implies {
                let e2 = #[trigger] ns[l];
                &&& e2.total == sender_total(nt, e2.sender)
                &&& e2.num_txns == sender_count(nt, e2.sender)
                &&& e2.num_txns > 0
            } by {
                let l2 = if l < k { l } else { l + 1 };
                let a = v.senders[l2].sender;
                assert(ns[l] == v.senders[l2]);
                assert(sender_total(nt, a) == sender_total(txs, a) - sender_share(tx, a));
                assert(sender_count(nt, a) == sender_count(txs, a) - sender_one(tx, a));
            }
            assert forall|l: int, m: int|
                0 <= l < ns.len() && 0 <= m < ns.len() && l != m
                    implies (#[trigger] ns[l]).sender != (#[trigger] ns[m]).sender by {
                let l2 = if l < k { l } else { l + 1 };
                let m2 = if m < k { m } else { m + 1 };
                assert(ns[l] == v.senders[l2]);
                assert(ns[m] == v.senders[m2]);
            }
            assert forall|j: int| 0 <= j < nt.len() implies has_sender(ns, (#[trigger] nt[j]).sender) by {
                let a = nt[j].sender;
                if a == tx.sender {
                    lemma_sender_bounds(nt, a);
                    assert(sender_count(nt, a) == 0);
                    assert(nt[j].sender != a);
                } else {
                    let j2 = if j < i { j } else { j + 1 };
                    assert(has_sender(v.senders, txs[j2].sender));
                    let l = choose|l: int| 0 <= l < v.senders.len() && (#[trigger] v.senders[l]).sender == a;
                    assert(l != k);
                    let l2 = if l < k { l } else { l - 1 };
                    assert(ns[l2] == v.senders[l]);
                }
            }
        } else {
            let ns = w.senders;
            assert forall|j: int| 0 <= j < nt.len() implies has_sender(ns, (#[trigger] nt[j]).sender) by {
                let a = nt[j].sender;
                if a == tx.sender {
                    assert(ns[k].sender == a);
                } else {
                    let j2 = if j < i { j } else { j + 1 };
                    assert(has_sender(v.senders, txs[j2].sender));
                    let l = choose|l: int| 0 <= l < v.senders.len() && (#[trigger] v.senders[l]).sender == a;
                    assert(ns[l] == v.senders[l]);
                }
            }
            assert forall|l: int| 0 <= l < ns.len() implies {
                let e2 = #[trigger] ns[l];
                &&& e2.sender == v.senders[l].sender
                &&& e2.total == sender_total(nt, e2.sender)
                &&& e2.num_txns == sender_count(nt, e2.sender)
                &&& e2.num_txns > 0
            } by {
                let a = v.senders[l].sender;
                assert(sender_total(nt, a) == sender_total(txs, a) - sender_share(tx, a));
                assert(sender_count(nt, a) == sender_count(txs, a) - sender_one(tx, a));
                if l != k {
                    assert(a != tx.sender);
                }
            }
            assert forall|l: int, m: int|
                0 <= l < ns.len() && 0 <= m < ns.len() && l != m
                    implies (#[trigger] ns[l]).sender != (#[trigger] ns[m]).sender by {
                assert(ns[l].sender == v.senders[l].sender);
                assert(ns[m].sender == v.senders[m].sender);
            }
        }
        assert(w.senders_wf());
        lemma_without_signer(v.outgoing_validators, tx.deleting_validator());
        lemma_without_signer(v.outgoing_stakers, tx.unstaking_staker());
        lemma_without_signer(v.creating_validators, tx.created_validator());
        lemma_without_signer(v.creating_stakers, tx.created_staker());
    }
}

/// Putting a transaction that is not in the mempool and then removing it by
/// its hash gives back the state from before.
pub proof fn lemma_put_remove_round_trip(v: MempoolView, tx: Transaction)
    requires
        v.wf(),
        !v.contains(tx.hash),
        v.can_put(tx),
    ensures
        v.put(tx).remove(tx.hash) == v,
{
    let w = v.put(tx);
    lemma_put_wf(v, tx);
    let n = v.transactions.len() as int;
    assert(w.transactions[n] == tx);
    lemma_tx_index(w, n);
    assert(w.get(tx.hash) == tx);
    let r = w.remove(tx.hash);
    assert(r.transactions =~= v.transactions);
    assert(!v.by_fee.contains_key(tx.hash));
    assert(!v.by_age.contains_key(tx.hash));
    assert(r.by_fee =~= v.by_fee);
    assert(r.by_age =~= v.by_age);
    if has_sender(v.senders, tx.sender) {
        let k = sender_index(v.senders, tx.sender);
        lemma_sender_index(w, k);
        assert(r.senders =~= v.senders);
    } else {
        let m = v.senders.len() as int;
        lemma_sender_index(w, m);
        assert(r.senders =~= v.senders);
    }
    lemma_with_signer(v.outgoing_validators, tx.deleting_validator());
    lemma_with_signer(v.outgoing_stakers, tx.unstaking_staker());
    lemma_with_signer(v.creating_validators, tx.created_validator());
    lemma_with_signer(v.creating_stakers, tx.created_staker());
}

/// Each sender's recorded in-flight total is the sum of `total_value` over
/// its transactions in the mempool, and a sender has an entry exactly when it
/// has a transaction there.
pub proof fn lemma_sender_state_total(v: MempoolView, a: Address)
    requires
        v.wf(),
    ensures
        has_sender(v.senders, a) ==> v.senders[sender_index(v.senders, a)].total == sender_total(v.transactions, a),
        has_sender(v.senders, a) <==> exists|i: int| 0 <= i < v.transactions.len() && (#[trigger] v.transactions[i]).sender == a,
{
    if has_sender(v.senders, a) {
        let k = sender_index(v.senders, a);
        lemma_sender_exists(v.transactions, a);
    }
}

/// Each address appears at most once in each staking uniqueness set.
pub proof fn lemma_staking_sets_unique(v: MempoolView)
    requires
        v.wf(),
    ensures
        v.outgoing_validators.no_duplicates(),
        v.outgoing_stakers.no_duplicates(),
        v.creating_validators.no_duplicates(),
        v.creating_stakers.no_duplicates(),
{
}

impl View for MempoolState {
    type V = MempoolView;

    closed spec fn view(&self) -> MempoolView {
        MempoolView {
            transactions: self.transactions@,
            by_fee: queue_contents(self.transactions_by_fee),
            by_age: queue_contents(self.transactions_by_age),
            senders: self.state_by_sender@,
            outgoing_validators: self.outgoing_validators@,
            outgoing_stakers: self.outgoing_stakers@,
            creating_validators: self.creating_validators@,
            creating_stakers: self.creating_stakers@,
        }
    }
}

fn find_address(v: &Vec<Address>, a: &Address) -> (r: Option<usize>)
    ensures
        match r {
            Some(k) => k < v@.len() && v@[k as int] == *a,
            None => !v@.contains(*a),
        },
{
    let mut k: usize = 0;
    while k < v.len()
        invariant
            k <= v@.len(),
            forall|j: int| 0 <= j < k ==> v@[j] != *a,
        decreases v@.len() - k,
    {
        if bytes_eq(&v[k], a) {
            return Some(k);
        }
        k = k + 1;
    }
    None
}

fn insert_signer(v: &mut Vec<Address>, a: Option<Address>)
    ensures
        final(v)@ == with_signer(old(v)@, a),
{
    if let Some(x) = a {
        v.push(x);
    }
}

fn remove_signer(v: &mut Vec<Address>, a: Option<Address>)
    requires
        old(v)@.no_duplicates(),
    ensures
        final(v)@ == without_signer(old(v)@, a),
{
    if let Some(x) = a {
        if let Some(k) = find_address(v, &x) {
            proof {
                lemma_address_index(v@, k as int);
            }
            v.remove(k);
        }
    }
}

impl MempoolState {
    pub fn new() -> (r: Self)
        ensures
            r@ == MempoolView::empty(),
            r@.wf(),
    {
        let r = MempoolState {
            transactions: Vec::new(),
            transactions_by_fee: queue_new(),
            transactions_by_age: queue_new(),
            state_by_sender: Vec::new(),
            outgoing_validators: Vec::new(),
            outgoing_stakers: Vec::new(),
            creating_validators: Vec::new(),
            creating_stakers: Vec::new(),
        };
        proof {
            assert(r@.transactions =~= Seq::empty());
            assert(r@.senders =~= Seq::empty());
            assert(r@.outgoing_validators =~= Seq::empty());
            assert(r@.outgoing_stakers =~= Seq::empty());
            assert(r@.creating_validators =~= Seq::empty());
            assert(r@.creating_stakers =~= Seq::empty());
        }
        r
    }

    fn find_tx(&self, hash: &Blake2bHash) -> (r: Option<usize>)
        ensures
            match r {
                Some(i) => i < self@.transactions.len() && self@.transactions[i as int].hash == *hash,
                None => !self@.contains(*hash),
            },
    {
        let mut i: usize = 0;
        while i < self.transactions.len()
            invariant
                i <= self.transactions@.len(),
                self@.transactions == self.transactions@,
                forall|j: int| 0 <= j < i ==> (#[trigger] self.transactions@[j]).hash != *hash,
            decreases self.transactions@.len() - i,
        {
            if bytes_eq(&self.transactions[i].hash, hash) {
                return Some(i);
            }
            i = i + 1;
        }
        None
    }

    fn find_sender(&self, a: &Address) -> (r: Option<usize>)
        ensures
            match r {
                Some(k) => k < self@.senders.len() && self@.senders[k as int].sender == *a,
                None => !has_sender(self@.senders, *a),
            },
    {
        let mut k: usize = 0;
        while k < self.state_by_sender.len()
            invariant
                k <= self.state_by_sender@.len(),
                self@.senders == self.state_by_sender@,
                forall|j: int| 0 <= j < k ==> (#[trigger] self.state_by_sender@[j]).sender != *a,
            decreases self.state_by_sender@.len() - k,
        {
            if bytes_eq(&self.state_by_sender[k].sender, a) {
                return Some(k);
            }
            k = k + 1;
        }
        None
    }

    /// Number of transactions.
    pub fn len(&self) -> (r: usize)
        ensures
            r == self@.transactions.len(),
    {
        self.transactions.len()
    }

    /// The transaction at position `i`, in insertion order.
    pub fn transaction_at(&self, i: usize) -> (r: Transaction)
        requires
            i < self@.transactions.len(),
        ensures
            r == self@.transactions[i as int],
    {
        self.transactions[i]
    }

    /// Whether the sender has transactions here.
    pub fn has_sender(&self, a: &Address) -> (r: bool)
        ensures
            r == has_sender(self@.senders, *a),
    {
        self.find_sender(a).is_some()
    }

    /// Whether a transaction with this hash is in the mempool.
    pub fn contains(&self, hash: &Blake2bHash) -> (r: bool)
        ensures
            r == self@.contains(*hash),
    {
        self.find_tx(hash).is_some()
    }

    /// The transaction with this hash, if it is in the mempool.
    pub fn get(&self, hash: &Blake2bHash) -> (r: Option<Transaction>)
        requires
            self@.wf(),
        ensures
            r is Some <==> self@.contains(*hash),
            r is Some ==> r == Some(self@.get(*hash)),
    {
        match self.find_tx(hash) {
            Some(i) => {
                proof {
                    lemma_tx_index(self@, i as int);
                }
                Some(self.transactions[i])
            },
            None => None,
        }
    }

    /// The transaction with the highest fee per byte; `None` when empty.
    pub fn best_by_fee(&self) -> (r: Option<Transaction>)
        requires
            self@.wf(),
        ensures
            r is None <==> self@.transactions.len() == 0,
            r matches Some(tx) ==> {
                &&& self@.contains(tx.hash)
                &&& self@.get(tx.hash) == tx
                &&& forall|i: int| 0 <= i < self@.transactions.len() ==> fee_priority(
                    #[trigger] self@.transactions[i],
                ) <= fee_priority(tx)
            },
    {
        match queue_peek(&self.transactions_by_fee) {
            None => {
                proof {
                    if self@.transactions.len() > 0 {
                        assert(self@.by_fee.contains_key(self@.transactions[0].hash));
                    }
                }
                None
            },
            Some((h, _)) => {
                proof {
                    assert(self@.by_fee.contains_key(h));
                    let i = tx_index(self@.transactions, h);
                    assert forall|l: int| 0 <= l < self@.transactions.len() implies fee_priority(
                        #[trigger] self@.transactions[l],
                    ) <= fee_priority(self@.transactions[i]) by {
                        assert(self@.by_fee.contains_key(self@.transactions[l].hash));
                    }
                }
                self.get(&h)
            },
        }
    }

    /// The transaction with the oldest validity start; `None` when empty.
    pub fn oldest(&self) -> (r: Option<Transaction>)
        requires
            self@.wf(),
        ensures
            r is None <==> self@.transactions.len() == 0,
            r matches Some(tx) ==> {
                &&& self@.contains(tx.hash)
                &&& self@.get(tx.hash) == tx
                &&& forall|i: int| 0 <= i < self@.transactions.len() ==> tx.validity_start_height
                    <= (#[trigger] self@.transactions[i]).validity_start_height
            },
    {
        match queue_peek(&self.transactions_by_age) {
            None => {
                proof {
                    if self@.transactions.len() > 0 {
                        assert(self@.by_age.contains_key(self@.transactions[0].hash));
                    }
                }
                None
            },
            Some((h, _)) => {
                proof {
                    assert(self@.by_age.contains_key(h));
                    let i = tx_index(self@.transactions, h);
                    assert forall|l: int| 0 <= l < self@.transactions.len() implies self@.transactions[i].validity_start_height
                        <= (#[trigger] self@.transactions[l]).validity_start_height by {
                        assert(self@.by_age.contains_key(self@.transactions[l].hash));
                    }
                }
                self.get(&h)
            },
        }
    }

    /// In-flight total of a sender: zero where it has no transaction here.
    pub fn sender_total(&self, a: &Address) -> (r: u64)
        requires
            self@.wf(),
        ensures
            r == self@.pending_total(*a),
    {
        match self.find_sender(a) {
            Some(k) => self.state_by_sender[k].total,
            None => {
                proof {
                    if sender_count(self@.transactions, *a) > 0 {
                        lemma_sender_exists(self@.transactions, *a);
                        let i = choose|i: int| 0 <= i < self@.transactions.len() && (#[trigger] self@.transactions[i]).sender == *a;
                        assert(has_sender(self@.senders, self@.transactions[i].sender));
                    }
                    lemma_sender_bounds(self@.transactions, *a);
                }
                0
            },
        }
    }

    /// Whether `tx` would add an actor to a staking uniqueness set that
    /// already holds it.
    pub fn staking_conflict(&self, tx: &Transaction) -> (r: bool)
        ensures
            r == !self@.staking_free(*tx),
    {
        let a = find_address(&self.outgoing_validators, &tx.get_deleting_validator().unwrap_or([0u8; 20]));
        let b = find_address(&self.outgoing_stakers, &tx.get_unstaking_staker().unwrap_or([0u8; 20]));
        let c = find_address(&self.creating_validators, &tx.get_created_validator().unwrap_or([0u8; 20]));
        let d = find_address(&self.creating_stakers, &tx.get_created_staker().unwrap_or([0u8; 20]));
        (tx.get_deleting_validator().is_some() && a.is_some())
            || (tx.get_unstaking_staker().is_some() && b.is_some())
            || (tx.get_created_validator().is_some() && c.is_some())
            || (tx.get_created_staker().is_some() && d.is_some())
    }

    /// Adds a transaction to every index. Returns `false`, changing nothing,
    /// when a transaction with the same hash is already there.
    pub fn put(&mut self, tx: &Transaction) -> (r: bool)
        requires
            old(self)@.wf(),
            !old(self)@.contains(tx.hash) ==> old(self)@.can_put(*tx),
        ensures
            r == !old(self)@.contains(tx.hash),
            final(self)@ == old(self)@.put(*tx),
            final(self)@.wf(),
    {
        proof {
            lemma_put_wf(self@, *tx);
        }
        if self.find_tx(&tx.hash).is_some() {
            return false;
        }
        let ghost old_v = self@;
        let sender_slot = self.find_sender(&tx.sender);
        proof {
            lemma_sender_bounds(old_v.transactions, tx.sender);
            if let Some(k) = sender_slot {
                lemma_sender_index(old_v, k as int);
            }
        }
        self.transactions.push(*tx);
        queue_push(&mut self.transactions_by_fee, tx.hash, tx.fee_per_byte());
        queue_push(
            &mut self.transactions_by_age,
            tx.hash,
            (u32::MAX - tx.validity_start_height) as u64,
        );
        match sender_slot {
            None => {
                self.state_by_sender.push(
                    SenderPendingState { sender: tx.sender, total: tx.total_value(), num_txns: 1 },
                );
            },
            Some(k) => {
                let e = self.state_by_sender[k];
                self.state_by_sender.set(
                    k,
                    SenderPendingState {
                        sender: e.sender,
                        total: e.total + tx.total_value(),
                        num_txns: e.num_txns + 1,
                    },
                );
            },
        }
        insert_signer(&mut self.outgoing_validators, tx.get_deleting_validator());
        insert_signer(&mut self.outgoing_stakers, tx.get_unstaking_staker());
        insert_signer(&mut self.creating_validators, tx.get_created_validator());
        insert_signer(&mut self.creating_stakers, tx.get_created_staker());
        proof {
            let w = old_v.put(*tx);
            assert(self@.transactions =~= w.transactions);
            assert(self@.senders =~= w.senders);
            assert(self@.by_fee =~= w.by_fee);
            assert(self@.by_age =~= w.by_age);
        }
        true
    }

    /// Removes the transaction with this hash from every index and returns
    /// it; `None`, changing nothing, where there is none.
    pub fn remove(&mut self, hash: &Blake2bHash) -> (r: Option<Transaction>)
        requires
            old(self)@.wf(),
        ensures
            r is Some <==> old(self)@.contains(*hash),
            r is Some ==> r == Some(old(self)@.get(*hash)),
            final(self)@ == old(self)@.remove(*hash),
            final(self)@.wf(),
    {
        proof {
            lemma_remove_wf(self@, *hash);
        }
        let i = match self.find_tx(hash) {
            Some(i) => i,
            None => return None,
        };
        let ghost old_v = self@;
        proof {
            lemma_tx_index(old_v, i as int);
        }
        let tx = self.transactions.remove(i);
        queue_remove(&mut self.transactions_by_age, hash);
        queue_remove(&mut self.transactions_by_fee, hash);
        proof {
            assert(has_sender(old_v.senders, tx.sender));
            lemma_sender_remove(old_v.transactions, i as int, tx.sender);
            lemma_sender_bounds(self.transactions@, tx.sender);
        }
        let k = match self.find_sender(&tx.sender) {
            Some(k) => k,
            None => return Some(tx),
        };
        proof {
            lemma_sender_index(old_v, k as int);
        }
        let e = self.state_by_sender[k];
        if e.num_txns == 1 {
            self.state_by_sender.remove(k);
        } else {
            self.state_by_sender.set(
                k,
                SenderPendingState {
                    sender: e.sender,
                    total: e.total - tx.total_value(),
                    num_txns: e.num_txns - 1,
                },
            );
        }
        remove_signer(&mut self.outgoing_validators, tx.get_deleting_validator());
        remove_signer(&mut self.outgoing_stakers, tx.get_unstaking_staker());
        remove_signer(&mut self.creating_validators, tx.get_created_validator());
        remove_signer(&mut self.creating_stakers, tx.get_created_staker());
        proof {
            let w = old_v.remove(*hash);
            assert(self@.transactions =~= w.transactions);
            assert(self@.senders =~= w.senders);
            assert(self@.by_fee =~= w.by_fee);
            assert(self@.by_age =~= w.by_age);
        }
        Some(tx)
    }
}

} // verus!
