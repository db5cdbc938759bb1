use vstd::prelude::*;

use crate::mempool_state::{
    fee_priority, lemma_remove_wf, lemma_tx_index, MempoolState, MempoolView,
};
use crate::primitives::{bytes_eq, Address, Blake2bHash};
use crate::transaction::Transaction;

verus! {

/// Sum of the serialized sizes of a run of transactions.
pub open spec fn total_size(txs: Seq<Transaction>) -> int
    decreases txs.len(),
{
    if txs.len() == 0 {
        0
    } else {
        total_size(txs.drop_last()) + txs.last().serialized_size
    }
}

/// The state after removing, in order, the transactions with these hashes.
pub open spec fn remove_all(v: MempoolView, hashes: Seq<Blake2bHash>) -> MempoolView
    decreases hashes.len(),
{
    if hashes.len() == 0 {
        v
    } else {
        remove_all(v, hashes.drop_last()).remove(hashes.last())
    }
}

pub open spec fn hashes_of(txs: Seq<Transaction>) -> Seq<Blake2bHash> {
    txs.map_values(|t: Transaction| t.hash)
}

/// Every transaction left after removing one was there before.
proof fn lemma_remove_subset(v: MempoolView, h: Blake2bHash, j: int)
    requires
        0 <= j < v.remove(h).transactions.len(),
    ensures
        exists|i: int| 0 <= i < v.transactions.len() && v.transactions[i] == v.remove(h).transactions[j],
{
    if v.contains(h) {
        let i = crate::mempool_state::tx_index(v.transactions, h);
        let j2 = if j < i { j } else { j + 1 };
        assert(v.transactions[j2] == v.remove(h).transactions[j]);
    } else {
        assert(v.transactions[j] == v.remove(h).transactions[j]);
    }
}

/// The pub/sub topic on which the mempool receives transactions.
#[derive(Clone, Copy, Debug, Default)]
pub struct TransactionTopic;

impl TransactionTopic {
    pub const BUFFER_SIZE: usize = 1024;
    pub const NAME: &'static str = "transactions";
    /// Messages are validated before they are relayed.
    pub const VALIDATE: bool = true;
}

/// A transaction of an adopted or reverted block, with what the current
/// chain says about it.
#[derive(Clone, Copy, Debug)]
pub struct BlockTransaction {
    pub tx: Transaction,
    /// Balance of the sender's account on the current chain; `None` where the
    /// chain has no such account.
    pub sender_balance: Option<u64>,
    /// Whether the current chain already holds the transaction within its
    /// validity window.
    pub in_validity_window: bool,
}

/// `t` is older than every transaction of `v` that is valid at `h`: the age
/// pass removes exactly these.
pub open spec fn expired(v: MempoolView, h: u32, t: Transaction) -> bool {
    forall|i: int|
        0 <= i < v.transactions.len() && (#[trigger] v.transactions[i]).valid_at(h)
            ==> t.validity_start_height < v.transactions[i].validity_start_height
}

/// `p` is `v` after the age pass at height `h`.
pub open spec fn pruned(v: MempoolView, p: MempoolView, h: u32) -> bool {
    &&& exists|hs: Seq<Blake2bHash>| p == remove_all(v, hs)
    &&& forall|i: int|
        0 <= i < v.transactions.len() ==> (p.contains((#[trigger] v.transactions[i]).hash)
            <==> !expired(v, h, v.transactions[i]))
}

/// Balance used for a sender in an adopted block: the chain's, or zero for
/// a transaction that moves no value from a sender with no account.
pub open spec fn adopted_balance(bt: BlockTransaction) -> Option<u64> {
    match bt.sender_balance {
        Some(b) => Some(b),
        None => if bt.tx.total_value_spec() == 0 {
            Some(0u64)
        } else {
            None
        },
    }
}

/// Hashes of the transactions of sender `a` to drop so that the rest fit in
/// `balance`: scanning in insertion order, a transaction is kept while the
/// kept total stays within the balance.
pub open spec fn evicted(txs: Seq<Transaction>, a: Address, balance: int, kept: int) -> Seq<Blake2bHash>
    decreases txs.len(),
{
    if txs.len() == 0 {
        Seq::empty()
    } else {
        let t = txs[0];
        if t.sender != a {
            evicted(txs.skip(1), a, balance, kept)
        } else if kept + t.total_value_spec() <= balance {
            evicted(txs.skip(1), a, balance, kept + t.total_value_spec())
        } else {
            seq![t.hash] + evicted(txs.skip(1), a, balance, kept)
        }
    }
}

/// The effect of one transaction of an adopted block.
pub open spec fn adopt_one(v: MempoolView, bt: BlockTransaction) -> MempoolView {
    let tx = bt.tx;
    if v.contains(tx.hash) {
        v.remove(tx.hash)
    } else if crate::mempool_state::has_sender(v.senders, tx.sender) {
        match adopted_balance(bt) {
            Some(b) => if v.pending_total(tx.sender) > b {
                remove_all(v, evicted(v.transactions, tx.sender, b as int, 0))
            } else {
                v
            },
            None => v,
        }
    } else {
        v
    }
}

pub open spec fn adopt_all(v: MempoolView, s: Seq<BlockTransaction>) -> MempoolView
    decreases s.len(),
{
    if s.len() == 0 {
        v
    } else {
        adopt_one(adopt_all(v, s.drop_last()), s.last())
    }
}

/// Whether a transaction of a reverted block goes back into the mempool at
/// height `h`: it is unknown, valid, not on the new chain, its sender has an
/// account whose balance covers the in-flight total with it, and it may be
/// put.
pub open spec fn reinstates(v: MempoolView, bt: BlockTransaction, h: u32) -> bool {
    &&& !v.contains(bt.tx.hash)
    &&& bt.tx.valid_at(h)
    &&& !bt.in_validity_window
    &&& bt.sender_balance matches Some(b) && v.pending_total(bt.tx.sender)
        + bt.tx.total_value_spec() <= b
    &&& v.can_put(bt.tx)
}

pub open spec fn reinstate_one(v: MempoolView, bt: BlockTransaction, h: u32) -> MempoolView {
    if reinstates(v, bt, h) {
        v.put(bt.tx)
    } else {
        v
    }
}

pub open spec fn reinstate_all(v: MempoolView, s: Seq<BlockTransaction>, h: u32) -> MempoolView
    decreases s.len(),
{
    if s.len() == 0 {
        v
    } else {
        reinstate_one(reinstate_all(v, s.drop_last(), h), s.last(), h)
    }
}

proof fn lemma_remove_all_push(v: MempoolView, hs: Seq<Blake2bHash>, h: Blake2bHash)
    ensures
        remove_all(v, hs.push(h)) == remove_all(v, hs).remove(h),
{
    assert(hs.push(h).drop_last() =~= hs);
}

/// After removing `h`, exactly the other hashes are still there.
proof fn lemma_remove_contains(v: MempoolView, h: Blake2bHash, h2: Blake2bHash)
    requires
        v.txs_wf(),
    ensures
        v.remove(h).contains(h2) <==> (v.contains(h2) && h2 != h),
{
    if v.contains(h) {
        let i = crate::mempool_state::tx_index(v.transactions, h);
        let r = v.remove(h).transactions;
        if v.remove(h).contains(h2) {
            let j = choose|j: int| 0 <= j < r.len() && (#[trigger] r[j]).hash == h2;
            let j2 = if j < i { j } else { j + 1 };
            assert(v.transactions[j2] == r[j]);
            assert(j2 != i);
        }
        if v.contains(h2) && h2 != h {
            let j = choose|j: int| 0 <= j < v.transactions.len() && (#[trigger] v.transactions[j]).hash == h2;
            assert(j != i);
            let j2 = if j < i { j } else { j - 1 };
            assert(r[j2] == v.transactions[j]);
        }
    }
}

/// In a sub-collection of `v`, the transaction with a given hash is `v`'s.
proof fn lemma_same_hash(v: MempoolView, s: Seq<Transaction>, j: int, i: int)
    requires
        v.txs_wf(),
        0 <= j < s.len(),
        0 <= i < v.transactions.len(),
        v.transactions.contains(s[j]),
        s[j].hash == v.transactions[i].hash,
    ensures
        s[j] == v.transactions[i],
{
    let m = choose|m: int| 0 <= m < v.transactions.len() && v.transactions[m] == s[j];
    assert(v.transactions[m].hash == v.transactions[i].hash);
}

/// Why a transaction was not accepted into the mempool.
#[derive(Clone, Copy, Debug, PartialEq, Eq, Structural)]
pub enum VerifyErr {
    /// A transaction with the same hash is already pending.
    Known,
    /// Its amounts are not coin values, or its serialized size is zero.
    Malformed,
    /// It is not valid at the next block height.
    InvalidAtHeight,
    /// The chain already holds it within its validity window.
    AlreadyIncluded,
    /// Its sender has no account on the chain.
    NoAccount,
    /// Its sender cannot pay it on top of its pending transactions.
    InsufficientFunds,
    /// Another pending transaction already acts on the same validator or
    /// staker.
    StakingConflict,
    /// The mempool holds as many transactions as it can count.
    Full,
}

/// The outcome of `add_transaction` on these values.
pub open spec fn admission(
    v: MempoolView,
    tx: Transaction,
    block_height: u32,
    sender_balance: Option<u64>,
    in_validity_window: bool,
) -> Result<(), VerifyErr> {
    if v.contains(tx.hash) {
        Err(VerifyErr::Known)
    } else if !tx.wf() {
        Err(VerifyErr::Malformed)
    } else if !tx.valid_at(block_height) {
        Err(VerifyErr::InvalidAtHeight)
    } else if in_validity_window {
        Err(VerifyErr::AlreadyIncluded)
    } else if sender_balance is None {
        Err(VerifyErr::NoAccount)
    } else if v.pending_total(tx.sender) + tx.total_value_spec() > sender_balance->Some_0 {
        Err(VerifyErr::InsufficientFunds)
    } else if !v.staking_free(tx) {
        Err(VerifyErr::StakingConflict)
    } else if v.transactions.len() + 1 >= usize::MAX {
        Err(VerifyErr::Full)
    } else {
        Ok(())
    }
}

/// The pending transactions, with the indices the node keeps over them.
pub struct Mempool {
    pub(crate) state: MempoolState,
    /// A task that feeds network transactions into the mempool runs.
    executor_running: bool,
}

impl View for Mempool {
    type V = MempoolView;

    closed spec fn view(&self) -> MempoolView {
        self.state@
    }
}

impl Mempool {
    /// An empty mempool.
    pub fn new() -> (r: Self)
        ensures
            r@ == MempoolView::empty(),
            r@.wf(),
    {
        Mempool { state: MempoolState::new(), executor_running: false }
    }

    /// The age pass: removes the oldest transaction while it is not valid
    /// at `block_height`.
    fn prune_expired(&mut self, block_height: u32)
        requires
            old(self).wf(),
        ensures
            final(self).wf(),
            pruned(old(self)@, final(self)@, block_height),
    {
        let ghost v0 = self@;
        let ghost mut hs: Seq<Blake2bHash> = Seq::empty();
        proof {
            assert(remove_all(v0, hs) == v0);
            assert forall|j: int| 0 <= j < self@.transactions.len() implies v0.transactions.contains(#[trigger] self@.transactions[j]) by {
                assert(v0.transactions[j] == self@.transactions[j]);
            }
            assert forall|i: int| 0 <= i < v0.transactions.len() implies self@.contains((#[trigger] v0.transactions[i]).hash) by {
                assert(self@.transactions[i].hash == v0.transactions[i].hash);
            }
        }
        loop
            invariant
                self@.wf(),
                v0.wf(),
                self@ == remove_all(v0, hs),
                forall|j: int| 0 <= j < self@.transactions.len() ==> v0.transactions.contains(#[trigger] self@.transactions[j]),
                forall|i: int| 0 <= i < v0.transactions.len() && !self@.contains((#[trigger] v0.transactions[i]).hash) ==> expired(v0, block_height, v0.transactions[i]),
                forall|i: int| 0 <= i < v0.transactions.len() && (#[trigger] v0.transactions[i]).valid_at(block_height) ==> self@.contains(v0.transactions[i].hash),
            ensures
                self@.wf(),
                pruned(v0, self@, block_height),
            decreases self@.transactions.len(),
        {
            let tx = match self.state.oldest() {
                Some(tx) => tx,
                None => {
                    proof {
                        assert forall|i: int| 0 <= i < v0.transactions.len() implies (self@.contains((#[trigger] v0.transactions[i]).hash)
                            <==> !expired(v0, block_height, v0.transactions[i])) by {
                            assert(!self@.contains(v0.transactions[i].hash));
                        }
                    }
                    break;
                },
            };
            let ghost cur = self@;
            proof {
                let k = crate::mempool_state::tx_index(cur.transactions, tx.hash);
                assert(cur.transactions[k] == tx);
                assert(v0.transactions.contains(tx));
            }
            if tx.is_valid_at(block_height) {
                proof {
                    assert forall|i: int| 0 <= i < v0.transactions.len() implies (self@.contains((#[trigger] v0.transactions[i]).hash)
                        <==> !expired(v0, block_height, v0.transactions[i])) by {
                        if self@.contains(v0.transactions[i].hash) {
                            let j = choose|j: int| 0 <= j < cur.transactions.len() && (#[trigger] cur.transactions[j]).hash == v0.transactions[i].hash;
                            lemma_same_hash(v0, cur.transactions, j, i);
                            let m = choose|m: int| 0 <= m < v0.transactions.len() && v0.transactions[m] == tx;
                            assert(v0.transactions[m].valid_at(block_height));
                        }
                    }
                }
                break;
            }
            proof {
                assert(expired(v0, block_height, tx)) by {
                    assert forall|l: int| 0 <= l < v0.transactions.len() && (#[trigger] v0.transactions[l]).valid_at(block_height)
                        implies tx.validity_start_height < v0.transactions[l].validity_start_height by {
                        let j = choose|j: int| 0 <= j < cur.transactions.len() && (#[trigger] cur.transactions[j]).hash == v0.transactions[l].hash;
                        lemma_same_hash(v0, cur.transactions, j, l);
                    }
                }
                lemma_remove_all_push(v0, hs, tx.hash);
                let m = choose|m: int| 0 <= m < v0.transactions.len() && v0.transactions[m] == tx;
                assert forall|i: int| 0 <= i < v0.transactions.len() implies (cur.remove(tx.hash).contains((#[trigger] v0.transactions[i]).hash)
                    <==> (cur.contains(v0.transactions[i].hash) && v0.transactions[i].hash != tx.hash)) by {
                    lemma_remove_contains(cur, tx.hash, v0.transactions[i].hash);
                }
                assert forall|i: int| 0 <= i < v0.transactions.len() && v0.transactions[i].hash == tx.hash implies #[trigger] v0.transactions[i] == tx by {
                    assert(v0.transactions[m].hash == v0.transactions[i].hash);
                }
                assert forall|j: int| 0 <= j < cur.remove(tx.hash).transactions.len() implies v0.transactions.contains(#[trigger] cur.remove(tx.hash).transactions[j]) by {
                    lemma_remove_subset(cur, tx.hash, j);
                    let q = choose|q: int| 0 <= q < cur.transactions.len() && cur.transactions[q] == cur.remove(tx.hash).transactions[j];
                    assert(v0.transactions.contains(cur.transactions[q]));
                }
            }
            self.state.remove(&tx.hash);
            proof {
                hs = hs.push(tx.hash);
            }
        }
        proof {
            let w = self@;
            assert(w == remove_all(v0, hs));
        }
    }

    /// Drops transactions of `sender`, scanning in insertion order and
    /// keeping each one while the kept total stays within `balance`.
    fn evict_over_balance(&mut self, sender: &Address, balance: u64)
        requires
            old(self).wf(),
        ensures
            final(self).wf(),
            final(self)@ == remove_all(old(self)@, evicted(old(self)@.transactions, *sender, balance as int, 0)),
    {
        let ghost v0 = self@;
        let ghost txs = v0.transactions;
        let mut plan: Vec<Blake2bHash> = Vec::new();
        let mut kept: u64 = 0;
        let n = self.state.len();
        let mut i: usize = 0;
        proof {
            assert(txs.skip(0) =~= txs);
            assert(plan@ + evicted(txs, *sender, balance as int, 0) =~= evicted(txs, *sender, balance as int, 0));
        }
        while i < n
            invariant
                self@ == v0,
                self.state@ == v0,
                v0.wf(),
                txs == v0.transactions,
                n == txs.len(),
                i <= n,
                kept <= balance,
                evicted(txs, *sender, balance as int, 0) == plan@ + evicted(txs.skip(i as int), *sender, balance as int, kept as int),
            decreases n - i,
        {
            let t = self.state.transaction_at(i);
            proof {
                assert(txs.skip(i as int).skip(1) =~= txs.skip(i + 1));
                assert(txs.skip(i as int)[0] == txs[i as int]);
                assert(t.wf());
            }
            if bytes_eq(&t.sender, sender) {
                let v = t.total_value();
                if v <= balance - kept {
                    kept = kept + v;
                } else {
                    proof {
                        let rest = evicted(txs.skip(i + 1), *sender, balance as int, kept as int);
                        assert(plan@ + (seq![t.hash] + rest) =~= plan@.push(t.hash) + rest);
                    }
                    plan.push(t.hash);
                }
            }
            i = i + 1;
        }
        proof {
            assert(plan@ + evicted(txs.skip(n as int), *sender, balance as int, kept as int) =~= plan@);
        }
        let mut j: usize = 0;
        proof {
            assert(plan@.take(0) =~= Seq::<Blake2bHash>::empty());
        }
        while j < plan.len()
            invariant
                self@.wf(),
                j <= plan@.len(),
                self@ == remove_all(v0, plan@.take(j as int)),
            decreases plan@.len() - j,
        {
            proof {
                assert(plan@.take(j + 1) =~= plan@.take(j as int).push(plan@[j as int]));
                lemma_remove_all_push(v0, plan@.take(j as int), plan@[j as int]);
            }
            self.state.remove(&plan[j]);
            j = j + 1;
        }
        proof {
            assert(plan@.take(plan@.len() as int) =~= plan@);
        }
    }

    /// Applies one transaction of an adopted block.
    fn adopt_transaction(&mut self, bt: &BlockTransaction)
        requires
            old(self).wf(),
        ensures
            final(self).wf(),
            final(self)@ == adopt_one(old(self)@, *bt),
    {
        let tx = &bt.tx;
        if self.state.contains(&tx.hash) {
            self.state.remove(&tx.hash);
            return;
        }
        if !self.state.has_sender(&tx.sender) {
            return;
        }
        let balance = match bt.sender_balance {
            Some(b) => b,
            None => {
                if tx.value == 0 && tx.fee == 0 {
                    0
                } else {
                    return;
                }
            },
        };
        if self.state.sender_total(&tx.sender) > balance {
            self.evict_over_balance(&tx.sender, balance);
        }
    }

    /// Applies one transaction of a reverted block at `block_height`.
    fn reinstate_transaction(&mut self, bt: &BlockTransaction, block_height: u32)
        requires
            old(self).wf(),
        ensures
            final(self).wf(),
            final(self)@ == reinstate_one(old(self)@, *bt, block_height),
    {
        let tx = &bt.tx;
        if self.state.contains(&tx.hash) || !tx.is_valid_at(block_height) || bt.in_validity_window {
            return;
        }
        let balance = match bt.sender_balance {
            Some(b) => b,
            None => return,
        };
        if !tx.is_well_formed() {
            return;
        }
        let pending = self.state.sender_total(&tx.sender);
        if tx.total_value() > balance || pending > balance - tx.total_value() {
            return;
        }
        if self.state.len() >= usize::MAX - 1 || self.state.staking_conflict(tx) {
            return;
        }
        self.state.put(tx);
    }

    /// Brings the mempool up to date after the chain moved to
    /// `block_number`: drops what expired, what the adopted blocks included
    /// and what their senders can no longer pay, and takes back what the
    /// reverted blocks held and is still valid and paid for.
    pub fn mempool_update(
        &mut self,
        block_number: u32,
        adopted: &Vec<BlockTransaction>,
        reverted: &Vec<BlockTransaction>,
    )
        requires
            old(self).wf(),
            block_number < u32::MAX,
        ensures
            final(self).wf(),
            exists|p: MempoolView|
                pruned(old(self)@, p, (block_number + 1) as u32) && final(self)@ == reinstate_all(
                    adopt_all(p, adopted@),
                    reverted@,
                    (block_number + 1) as u32,
                ),
    {
        let block_height = block_number + 1;
        self.prune_expired(block_height);
        let ghost p = self@;
        let mut i: usize = 0;
        proof {
            assert(adopted@.take(0) =~= Seq::<BlockTransaction>::empty());
        }
        while i < adopted.len()
            invariant
                self@.wf(),
                i <= adopted@.len(),
                self@ == adopt_all(p, adopted@.take(i as int)),
            decreases adopted@.len() - i,
        {
            proof {
                assert(adopted@.take(i + 1).drop_last() =~= adopted@.take(i as int));
            }
            self.adopt_transaction(&adopted[i]);
            i = i + 1;
        }
        proof {
            assert(adopted@.take(adopted@.len() as int) =~= adopted@);
        }
        let ghost q = self@;
        let mut j: usize = 0;
        proof {
            assert(reverted@.take(0) =~= Seq::<BlockTransaction>::empty());
        }
        while j < reverted.len()
            invariant
                self@.wf(),
                j <= reverted@.len(),
                self@ == reinstate_all(q, reverted@.take(j as int), block_height),
            decreases reverted@.len() - j,
        {
            proof {
                assert(reverted@.take(j + 1).drop_last() =~= reverted@.take(j as int));
            }
            self.reinstate_transaction(&reverted[j], block_height);
            j = j + 1;
        }
        proof {
            assert(reverted@.take(reverted@.len() as int) =~= reverted@);
        }
    }

    /// Checks a transaction against the mempool and what the chain says of
    /// it (its sender's balance, whether it is already included), and adds
    /// it when it passes. Signatures are checked before this call.
    pub fn add_transaction(
        &mut self,
        tx: &Transaction,
        block_height: u32,
        sender_balance: Option<u64>,
        in_validity_window: bool,
    ) -> (r: Result<(), VerifyErr>)
        requires
            old(self).wf(),
        ensures
            final(self).wf(),
            r == admission(old(self)@, *tx, block_height, sender_balance, in_validity_window),
            r is Ok ==> final(self)@ == old(self)@.put(*tx),
            r is Err ==> final(self)@ == old(self)@,
    {
        if self.state.contains(&tx.hash) {
            return Err(VerifyErr::Known);
        }
        if !tx.is_well_formed() {
            return Err(VerifyErr::Malformed);
        }
        if !tx.is_valid_at(block_height) {
            return Err(VerifyErr::InvalidAtHeight);
        }
        if in_validity_window {
            return Err(VerifyErr::AlreadyIncluded);
        }
        let balance = match sender_balance {
            Some(b) => b,
            None => return Err(VerifyErr::NoAccount),
        };
        let pending = self.state.sender_total(&tx.sender);
        if tx.total_value() > balance || pending > balance - tx.total_value() {
            return Err(VerifyErr::InsufficientFunds);
        }
        if self.state.staking_conflict(tx) {
            return Err(VerifyErr::StakingConflict);
        }
        if self.state.len() >= usize::MAX - 1 {
            return Err(VerifyErr::Full);
        }
        self.state.put(tx);
        Ok(())
    }

    /// Whether a transaction with this hash is pending.
    pub fn contains_transaction_by_hash(&self, hash: &Blake2bHash) -> (r: bool)
        ensures
            r == self@.contains(*hash),
    {
        self.state.contains(hash)
    }

    /// The pending transaction with this hash.
    pub fn get_transaction_by_hash(&self, hash: &Blake2bHash) -> (r: Option<Transaction>)
        requires
            self.wf(),
        ensures
            r is Some <==> self@.contains(*hash),
            r is Some ==> r == Some(self@.get(*hash)),
    {
        self.state.get(hash)
    }

    /// The hashes of all pending transactions, in insertion order.
    pub fn get_transaction_hashes(&self) -> (r: Vec<Blake2bHash>)
        ensures
            r@ == hashes_of(self@.transactions),
    {
        let n = self.state.len();
        let mut r: Vec<Blake2bHash> = Vec::new();
        let mut i: usize = 0;
        while i < n
            invariant
                n == self@.transactions.len(),
                i <= n,
                r@ == hashes_of(self@.transactions.take(i as int)),
            decreases n - i,
        {
            let t = self.state.transaction_at(i);
            proof {
                assert(hashes_of(self@.transactions.take(i + 1)) =~= hashes_of(self@.transactions.take(i as int)).push(t.hash));
            }
            r.push(t.hash);
            i = i + 1;
        }
        proof {
            assert(self@.transactions.take(n as int) =~= self@.transactions);
        }
        r
    }

    /// Number of pending transactions.
    pub fn num_transactions(&self) -> (r: usize)
        ensures
            r == self@.transactions.len(),
    {
        self.state.len()
    }

    /// All pending transactions, in insertion order.
    pub fn get_transactions(&self) -> (r: Vec<Transaction>)
        ensures
            r@ == self@.transactions,
    {
        let n = self.state.len();
        let mut r: Vec<Transaction> = Vec::new();
        let mut i: usize = 0;
        while i < n
            invariant
                n == self@.transactions.len(),
                i <= n,
                r@ == self@.transactions.take(i as int),
            decreases n - i,
        {
            let t = self.state.transaction_at(i);
            proof {
                assert(self@.transactions.take(i + 1) =~= self@.transactions.take(i as int).push(t));
            }
            r.push(t);
            i = i + 1;
        }
        proof {
            assert(self@.transactions.take(n as int) =~= self@.transactions);
        }
        r
    }

    pub closed spec fn executor_running_spec(&self) -> bool {
        self.executor_running
    }

    /// Records that the transaction executor starts. Returns `true` where
    /// none ran, so that the caller spawns it; `false` where one already
    /// runs, and nothing is to be done.
    pub fn start_executor(&mut self) -> (r: bool)
        ensures
            r == !old(self).executor_running_spec(),
            final(self).executor_running_spec(),
            final(self)@ == old(self)@,
    {
        if self.executor_running {
            return false;
        }
        self.executor_running = true;
        true
    }

    /// Records that the transaction executor stops. Returns `true` where one
    /// ran, so that the caller unsubscribes and aborts it; `false` where none
    /// ran.
    pub fn stop_executor(&mut self) -> (r: bool)
        ensures
            r == old(self).executor_running_spec(),
            !final(self).executor_running_spec(),
            final(self)@ == old(self)@,
    {
        if !self.executor_running {
            return false;
        }
        self.executor_running = false;
        true
    }

    pub open spec fn wf(&self) -> bool {
        self@.wf()
    }

    /// Takes transactions for a block: repeatedly the one with the highest
    /// fee per byte, as long as the running size stays within `max_bytes`.
    /// The transactions returned leave the mempool.
    pub fn get_transactions_for_block(&mut self, max_bytes: usize) -> (r: Vec<Transaction>)
        requires
            old(self).wf(),
        ensures
            final(self).wf(),
            final(self)@ == remove_all(old(self)@, hashes_of(r@)),
            hashes_of(r@).no_duplicates(),
            total_size(r@) <= max_bytes,
            forall|i: int| 0 <= i < r@.len() ==> old(self)@.contains(#[trigger] r@[i].hash),
            forall|i: int| 0 <= i < r@.len() ==> old(self)@.get(r@[i].hash) == #[trigger] r@[i],
            forall|i: int, j: int|
                0 <= i < j < r@.len() ==> fee_priority(#[trigger] r@[j]) <= fee_priority(
                    #[trigger] r@[i],
                ),
            forall|i: int, j: int|
                0 <= i < r@.len() && 0 <= j < final(self)@.transactions.len() ==> fee_priority(
                    #[trigger] final(self)@.transactions[j],
                ) <= fee_priority(#[trigger] r@[i]),
            final(self)@.transactions.len() > 0 ==> exists|j: int|
                0 <= j < final(self)@.transactions.len() && total_size(r@)
                    + (#[trigger] final(self)@.transactions[j]).serialized_size > max_bytes
                    && forall|l: int|
                    0 <= l < final(self)@.transactions.len() ==> fee_priority(
                        #[trigger] final(self)@.transactions[l],
                    ) <= fee_priority(final(self)@.transactions[j]),
    {
        let ghost old_v = self@;
        let mut txs: Vec<Transaction> = Vec::new();
        let mut size: usize = 0;
        proof {
            assert(hashes_of(txs@).len() == 0);
            assert forall|j: int| 0 <= j < self@.transactions.len() implies old_v.transactions.contains(#[trigger] self@.transactions[j]) by {
                assert(old_v.transactions[j] == self@.transactions[j]);
            }
        }
        loop
            invariant
                self@.wf(),
                self@ == remove_all(old_v, hashes_of(txs@)),
                hashes_of(txs@).no_duplicates(),
                forall|i: int| 0 <= i < txs@.len() ==> !self@.contains(#[trigger] txs@[i].hash),
                size == total_size(txs@),
                size <= max_bytes,
                forall|i: int| 0 <= i < txs@.len() ==> old_v.contains(#[trigger] txs@[i].hash),
                forall|i: int| 0 <= i < txs@.len() ==> old_v.get(txs@[i].hash) == #[trigger] txs@[i],
                forall|i: int, j: int|
                    0 <= i < j < txs@.len() ==> fee_priority(#[trigger] txs@[j]) <= fee_priority(
                        #[trigger] txs@[i],
                    ),
                forall|i: int, j: int|
                    0 <= i < txs@.len() && 0 <= j < self@.transactions.len() ==> fee_priority(
                        #[trigger] self@.transactions[j],
                    ) <= fee_priority(#[trigger] txs@[i]),
                old_v.wf(),
                forall|j: int| 0 <= j < self@.transactions.len() ==> old_v.transactions.contains(#[trigger] self@.transactions[j]),
            ensures
                self@.wf(),
                self@ == remove_all(old_v, hashes_of(txs@)),
                hashes_of(txs@).no_duplicates(),
                forall|i: int| 0 <= i < txs@.len() ==> !self@.contains(#[trigger] txs@[i].hash),
                size == total_size(txs@),
                forall|i: int| 0 <= i < txs@.len() ==> old_v.contains(#[trigger] txs@[i].hash),
                forall|i: int| 0 <= i < txs@.len() ==> old_v.get(txs@[i].hash) == #[trigger] txs@[i],
                forall|i: int, j: int|
                    0 <= i < j < txs@.len() ==> fee_priority(#[trigger] txs@[j]) <= fee_priority(
                        #[trigger] txs@[i],
                    ),
                forall|i: int, j: int|
                    0 <= i < txs@.len() && 0 <= j < self@.transactions.len() ==> fee_priority(
                        #[trigger] self@.transactions[j],
                    ) <= fee_priority(#[trigger] txs@[i]),
                size <= max_bytes,
                self@.transactions.len() > 0 ==> exists|j: int|
                    0 <= j < self@.transactions.len() && size
                        + (#[trigger] self@.transactions[j]).serialized_size > max_bytes
                        && forall|l: int|
                        0 <= l < self@.transactions.len() ==> fee_priority(
                            #[trigger] self@.transactions[l],
                        ) <= fee_priority(self@.transactions[j]),
            decreases self@.transactions.len(),
        {
            let tx = match self.state.best_by_fee() {
                Some(tx) => tx,
                None => break,
            };
            let hash = tx.hash;
            let ghost cur = self@;
            proof {
                let i = crate::mempool_state::tx_index(cur.transactions, hash);
                assert(cur.transactions[i].hash == hash);
            }
            let next_size = match size.checked_add(tx.serialized_size) {
                Some(s) => s,
                None => {
                    proof {
                        let i = crate::mempool_state::tx_index(cur.transactions, hash);
                        assert(cur.transactions[i] == tx);
                    }
                    break;
                },
            };
            if next_size > max_bytes {
                proof {
                    let i = crate::mempool_state::tx_index(cur.transactions, hash);
                    assert(cur.transactions[i] == tx);
                }
                break;
            }
            proof {
                let i = crate::mempool_state::tx_index(cur.transactions, hash);
                assert(cur.transactions[i] == tx);
                assert(old_v.transactions.contains(cur.transactions[i]));
                let k = choose|k: int| 0 <= k < old_v.transactions.len() && old_v.transactions[k] == cur.transactions[i];
                lemma_tx_index(old_v, k);
                assert(old_v.contains(tx.hash));
                assert(old_v.get(tx.hash) == tx);
                assert(hashes_of(txs@.push(tx)).drop_last() =~= hashes_of(txs@));
                assert forall|i2: int| 0 <= i2 < txs@.len() implies !cur.remove(hash).contains(#[trigger] txs@[i2].hash) by {
                    lemma_remove_contains(cur, hash, txs@[i2].hash);
                }
                lemma_remove_contains(cur, hash, hash);
                assert forall|a: int, b: int| 0 <= a < b < hashes_of(txs@.push(tx)).len() implies hashes_of(txs@.push(tx))[a] != hashes_of(txs@.push(tx))[b] by {
                    if b == txs@.len() {
                        assert(!cur.contains(txs@[a].hash));
                    } else {
                        assert(hashes_of(txs@)[a] != hashes_of(txs@)[b]);
                    }
                }
                assert(txs@.push(tx).drop_last() =~= txs@);
                assert forall|j: int| 0 <= j < cur.remove(hash).transactions.len() implies old_v.transactions.contains(#[trigger] cur.remove(hash).transactions[j]) by {
                    lemma_remove_subset(cur, hash, j);
                    let m = choose|m: int| 0 <= m < cur.transactions.len() && cur.transactions[m] == cur.remove(hash).transactions[j];
                    assert(cur.transactions[m] == cur.transactions[m]);
                }
                assert forall|j: int| 0 <= j < cur.remove(hash).transactions.len() implies fee_priority(#[trigger] cur.remove(hash).transactions[j]) <= fee_priority(tx) by {
                    lemma_remove_subset(cur, hash, j);
                    let m = choose|m: int| 0 <= m < cur.transactions.len() && cur.transactions[m] == cur.remove(hash).transactions[j];
                    assert(fee_priority(cur.transactions[m]) <= fee_priority(tx));
                }
                assert forall|i2: int| 0 <= i2 < txs@.len() implies fee_priority(tx) <= fee_priority(#[trigger] txs@[i2]) by {
                    assert(fee_priority(cur.transactions[i]) <= fee_priority(txs@[i2]));
                }
            }
            self.state.remove(&hash);
            txs.push(tx);
            size = next_size;
        }
        txs
    }
}

} // verus!
