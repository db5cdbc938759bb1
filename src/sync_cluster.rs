use vstd::prelude::*;

use crate::messages::{BatchSetInfo, ExtendedTransaction, HistoryChunk, MacroBlock};
use crate::primitives::Blake2bHash;
use crate::sync_queue::{Request, SyncQueue, SyncQueuePeer};

verus! {

/// Number of history entries in a full chunk.
pub const CHUNK_SIZE: usize = 1000;

/// Number of blocks in an epoch.
pub const EPOCH_LENGTH: u32 = 128;

/// Most epochs downloaded ahead of the one being completed.
pub const NUM_PENDING_EPOCHS: usize = 5;

/// Most history chunks requested at a time.
pub const NUM_PENDING_CHUNKS: usize = 12;

/// The epoch a block belongs to.
pub open spec fn epoch_at(block_number: u32) -> int {
    block_number as int / EPOCH_LENGTH as int
}

pub fn epoch_number_of(block_number: u32) -> (r: u32)
    ensures
        r == epoch_at(block_number),
{
    block_number / EPOCH_LENGTH
}

/// Copies a vector of plain values.
pub fn copy_vec<T: Copy>(v: &Vec<T>) -> (r: Vec<T>)
    ensures
        r@ == v@,
{
    let mut r: Vec<T> = Vec::new();
    let mut i: usize = 0;
    while i < v.len()
        invariant
            i <= v@.len(),
            r@ == v@.take(i as int),
        decreases v@.len() - i,
    {
        proof {
            assert(v@.take(i + 1) =~= v@.take(i as int).push(v@[i as int]));
        }
        r.push(v[i]);
        i = i + 1;
    }
    proof {
        assert(v@.take(v@.len() as int) =~= v@);
    }
    r
}

/// An epoch whose macro block arrived and whose history is downloading.
pub struct PendingEpoch {
    pub block: MacroBlock,
    pub history_len: usize,
    pub history: Vec<ExtendedTransaction>,
}

impl PendingEpoch {
    pub fn is_complete(&self) -> (r: bool)
        ensures
            r == (self.history_len == self.history@.len()),
    {
        self.history_len == self.history.len()
    }

    pub fn epoch_number(&self) -> (r: u32)
        ensures
            r == epoch_at(self.block.block_number),
    {
        epoch_number_of(self.block.block_number)
    }
}

/// A completed epoch: its macro block and its whole history.
pub struct Epoch {
    pub block: MacroBlock,
    pub history: Vec<ExtendedTransaction>,
}

/// What polling a cluster gave.
pub enum ClusterPoll {
    /// The next epoch, complete.
    Epoch(Epoch),
    /// A request failed on every peer, or a peer answered what was not asked.
    Failed,
    /// Every epoch of the cluster was handed out.
    Finished,
    /// A finished result was taken in; poll again.
    Progress,
    /// Waiting for responses.
    Pending,
}

/// The history chunks that a macro block's epoch is downloaded in:
/// `(epoch, 0..history_len / CHUNK_SIZE)`.
pub open spec fn chunk_ids_for(info: BatchSetInfo) -> Seq<(u32, usize)> {
    Seq::new(
        (info.history_len as int / CHUNK_SIZE as int) as nat,
        |i: int| (epoch_at(info.block.block_number) as u32, i as usize),
    )
}

/// A run of consecutive epoch hashes that a set of peers agree on, starting
/// at epoch `epoch_offset`, with the queues that download the epochs' macro
/// blocks and their histories from those peers.
pub struct SyncCluster {
    pub(crate) epoch_ids: Vec<Blake2bHash>,
    pub(crate) epoch_offset: usize,
    pub(crate) epoch_queue: SyncQueue<Blake2bHash, BatchSetInfo>,
    pub(crate) history_queue: SyncQueue<(u32, usize), (u32, HistoryChunk)>,
    pub(crate) pending_epochs: Vec<PendingEpoch>,
    epochs_received: usize,
}

impl SyncCluster {
    pub closed spec fn ids_view(&self) -> Seq<Blake2bHash> {
        self.epoch_ids@
    }

    pub closed spec fn offset(&self) -> nat {
        self.epoch_offset as nat
    }

    pub closed spec fn peers_view(&self) -> Seq<SyncQueuePeer> {
        self.epoch_queue.peers_view()
    }

    /// Number of epochs handed out so far.
    pub closed spec fn num_emitted(&self) -> int {
        self.epochs_received - self.pending_epochs@.len()
    }

    pub closed spec fn epoch_queue_spec(&self) -> SyncQueue<Blake2bHash, BatchSetInfo> {
        self.epoch_queue
    }

    pub closed spec fn history_queue_spec(&self) -> SyncQueue<(u32, usize), (u32, HistoryChunk)> {
        self.history_queue
    }

    /// The oldest pending epoch has its whole history.
    pub closed spec fn head_complete(&self) -> bool {
        self.pending_epochs@.len() > 0 && self.pending_epochs@[0].history_len
            == self.pending_epochs@[0].history@.len()
    }

    /// The next macro block result is finished.
    pub open spec fn epoch_ready(&self) -> bool {
        self.epoch_queue_spec().queued_has(self.epoch_queue_spec().outgoing() as int)
    }

    /// The next history chunk result is finished.
    pub open spec fn chunk_ready(&self) -> bool {
        self.history_queue_spec().queued_has(self.history_queue_spec().outgoing() as int)
    }

    /// Everything but the two queues stays.
    pub closed spec fn same_but_queues(&self, next: &Self) -> bool {
        &&& next.epoch_ids == self.epoch_ids
        &&& next.epoch_offset == self.epoch_offset
        &&& next.pending_epochs == self.pending_epochs
        &&& next.epochs_received == self.epochs_received
    }

    /// What `requests` does: from `self` to `next`, starting the macro block
    /// requests `epochs` (only while fewer than `NUM_PENDING_EPOCHS` epochs
    /// are pending) and the history chunk requests `chunks`.
    pub open spec fn requested(
        &self,
        next: &Self,
        epochs: Seq<Request<Blake2bHash>>,
        chunks: Seq<Request<(u32, usize)>>,
    ) -> bool {
        &&& self.same_but_queues(next)
        &&& self.num_pending_epochs() < NUM_PENDING_EPOCHS ==> self.epoch_queue_spec().started_requests(
            &next.epoch_queue_spec(),
            epochs,
        )
        &&& self.num_pending_epochs() >= NUM_PENDING_EPOCHS ==> epochs.len() == 0
            && next.epoch_queue_spec() == self.epoch_queue_spec()
        &&& self.history_queue_spec().started_requests(&next.history_queue_spec(), chunks)
    }

    /// What `on_epoch_response` does.
    pub open spec fn epoch_responded(
        &self,
        next: &Self,
        index: usize,
        response: Option<BatchSetInfo>,
        r: Option<Request<Blake2bHash>>,
    ) -> bool {
        &&& self.same_but_queues(next)
        &&& self.epoch_queue_spec().responded(&next.epoch_queue_spec(), index, response, r)
        &&& next.history_queue_spec() == self.history_queue_spec()
    }

    /// What `on_history_response` does.
    pub open spec fn history_responded(
        &self,
        next: &Self,
        index: usize,
        response: Option<(u32, HistoryChunk)>,
        r: Option<Request<(u32, usize)>>,
    ) -> bool {
        &&& self.same_but_queues(next)
        &&& self.history_queue_spec().responded(&next.history_queue_spec(), index, response, r)
        &&& next.epoch_queue_spec() == self.epoch_queue_spec()
    }

    /// The pending epochs, oldest first.
    pub closed spec fn pending_view(&self) -> Seq<PendingEpoch> {
        self.pending_epochs@
    }

    /// A macro block is taken in: it is of the next epoch, and its chunks
    /// can be counted.
    pub closed spec fn accepts_epoch(&self, info: BatchSetInfo) -> bool {
        let q = self.history_queue;
        &&& epoch_at(info.block.block_number) == self.epoch_offset + self.epochs_received
        &&& q.incoming() + q.ids_view().len() + q.num_pending() + q.num_queued()
            + info.history_len as int / CHUNK_SIZE as int + NUM_PENDING_CHUNKS <= usize::MAX
    }

    /// What taking in a macro block does: it is pending, with no history
    /// yet, and its chunks are queued for download.
    pub open spec fn epoch_taken(&self, next: &Self, info: BatchSetInfo) -> bool {
        let n = self.pending_view().len();
        &&& next.pending_view().len() == n + 1
        &&& forall|k: int| 0 <= k < n ==> #[trigger] next.pending_view()[k] == self.pending_view()[k]
        &&& next.pending_view()[n as int].block == info.block
        &&& next.pending_view()[n as int].history_len == info.history_len
        &&& next.pending_view()[n as int].history@.len() == 0
        &&& next.history_queue_spec().ids_view() == self.history_queue_spec().ids_view() + chunk_ids_for(info)
        &&& next.num_emitted() == self.num_emitted()
    }

    /// A chunk for epoch `number` has a pending epoch to go to, and entries.
    pub open spec fn chunk_fits(&self, number: u32, chunk: HistoryChunk) -> bool {
        let p = self.pending_view();
        &&& p.len() > 0
        &&& epoch_at(p[0].block.block_number) <= number < epoch_at(p[0].block.block_number) + p.len()
        &&& chunk.chunk is Some
    }

    /// What taking in a chunk does: its entries are appended to the pending
    /// epoch of that number; the other pending epochs stay.
    pub open spec fn chunk_taken(&self, next: &Self, number: u32, chunk: HistoryChunk) -> bool {
        let p = self.pending_view();
        let idx = number - epoch_at(p[0].block.block_number);
        &&& next.pending_view().len() == p.len()
        &&& forall|k: int| 0 <= k < p.len() && k != idx ==> #[trigger] next.pending_view()[k] == p[k]
        &&& next.pending_view()[idx].block == p[idx].block
        &&& next.pending_view()[idx].history_len == p[idx].history_len
        &&& next.pending_view()[idx].history@ == p[idx].history@ + chunk.chunk->Some_0.history@
        &&& next.num_emitted() == self.num_emitted()
    }

    /// One step of `poll_next`: hand out the oldest pending epoch when its
    /// history is complete; else take in the next finished macro block
    /// (while fewer than `NUM_PENDING_EPOCHS` are pending); else the next
    /// finished chunk; else report whether everything was handed out. A
    /// result that is an error, a macro block not of the next epoch, or a
    /// chunk with no pending epoch or no entries fails the cluster.
    pub open spec fn stepped(&self, next: &Self, r: ClusterPoll) -> bool {
        &&& next.ids_view() == self.ids_view()
        &&& next.offset() == self.offset()
        &&& next.peers_view() == self.peers_view()
        &&& if self.head_complete() {
            let head = self.pending_view()[0];
            &&& r matches ClusterPoll::Epoch(e) && e.block == head.block && e.history@ == head.history@
                && e.history@.len() == head.history_len
                && epoch_at(e.block.block_number) == self.offset() + self.num_emitted()
            &&& next.pending_view() == self.pending_view().skip(1)
            &&& next.num_emitted() == self.num_emitted() + 1
            &&& next.epoch_queue_spec() == self.epoch_queue_spec()
            &&& next.history_queue_spec() == self.history_queue_spec()
        } else if self.num_pending_epochs() < NUM_PENDING_EPOCHS && self.epoch_ready() {
            match self.epoch_queue_spec().next_result() {
                Some(Ok(info)) => if self.accepts_epoch(info) {
                    r is Progress && self.epoch_taken(next, info)
                } else {
                    r is Failed
                },
                _ => r is Failed,
            }
        } else if self.chunk_ready() {
            match self.history_queue_spec().next_result() {
                Some(Ok((number, chunk))) => if self.chunk_fits(number, chunk) {
                    r is Progress && self.chunk_taken(next, number, chunk)
                        && next.epoch_queue_spec() == self.epoch_queue_spec()
                } else {
                    r is Failed
                },
                _ => r is Failed,
            }
        } else if self.epochs_left() == 0 && self.num_pending_epochs() == 0 {
            r is Finished && *next == *self
        } else {
            r is Pending && *next == *self
        }
    }

    /// Macro blocks still to request, in flight, or waiting for their turn.
    pub closed spec fn epochs_left(&self) -> nat {
        self.epoch_queue.ids_view().len() + self.epoch_queue.num_pending() + self.epoch_queue.num_queued()
    }

    pub closed spec fn num_pending_epochs(&self) -> nat {
        self.pending_epochs@.len()
    }

    pub closed spec fn wf(&self) -> bool {
        &&& self.epoch_queue.wf()
        &&& self.history_queue.wf()
        &&& self.history_queue.desired_size() == NUM_PENDING_CHUNKS
        &&& self.epoch_offset + self.epoch_ids@.len() <= usize::MAX
        &&& self.pending_epochs@.len() <= self.epochs_received
        &&& self.pending_epochs@.len() <= NUM_PENDING_EPOCHS
        // the pending epochs are the next ones after those handed out
        &&& forall|k: int| 0 <= k < self.pending_epochs@.len() ==> epoch_at(
            (#[trigger] self.pending_epochs@[k]).block.block_number,
        ) == self.epoch_offset + self.epochs_received - self.pending_epochs@.len() + k
    }

    /// A cluster over `epoch_ids`, the first of which is epoch
    /// `epoch_offset`, downloading from `peers`.
    pub fn new(epoch_ids: Vec<Blake2bHash>, epoch_offset: usize, peers: Vec<SyncQueuePeer>) -> (r: Self)
        requires
            epoch_offset + epoch_ids@.len() <= usize::MAX,
        ensures
            r.wf(),
            r.ids_view() == epoch_ids@,
            r.offset() == epoch_offset,
            r.peers_view() == peers@,
            r.num_emitted() == 0,
            r.num_pending_epochs() == 0,
    {
        let epoch_queue = SyncQueue::new(copy_vec(&epoch_ids), copy_vec(&peers), NUM_PENDING_EPOCHS);
        let history_queue = SyncQueue::new(Vec::new(), peers, NUM_PENDING_CHUNKS);
        SyncCluster {
            epoch_ids,
            epoch_offset,
            epoch_queue,
            history_queue,
            pending_epochs: Vec::new(),
            epochs_received: 0,
        }
    }

    /// Takes the next epoch's macro block: queues its history chunks for
    /// download and keeps it pending. Returns `false`, changing nothing,
    /// where the block is not of the next epoch or the chunks cannot be
    /// counted.
    fn on_epoch_received(&mut self, epoch: BatchSetInfo) -> (r: bool)
        requires
            old(self).wf(),
            old(self).num_pending_epochs() < NUM_PENDING_EPOCHS,
        ensures
            final(self).wf(),
            r == old(self).accepts_epoch(epoch),
            r ==> old(self).epoch_taken(&*final(self), epoch),
            !r ==> *final(self) == *old(self),
            final(self).ids_view() == old(self).ids_view(),
            final(self).offset() == old(self).offset(),
            final(self).epoch_queue == old(self).epoch_queue,
    {
        let expected = match self.epoch_offset.checked_add(self.epochs_received) {
            Some(e) => e,
            None => return false,
        };
        let number = epoch_number_of(epoch.block.block_number);
        if number as usize != expected {
            return false;
        }
        let n_chunks = epoch.history_len as usize / CHUNK_SIZE;
        let started = self.history_queue.num_items_started();
        let queued = self.history_queue.len();
        let room = match started.checked_add(queued) {
            Some(a) => match a.checked_add(n_chunks) {
                Some(b) => b.checked_add(NUM_PENDING_CHUNKS),
                None => None,
            },
            None => None,
        };
        if room.is_none() {
            return false;
        }
        let mut chunk_ids: Vec<(u32, usize)> = Vec::new();
        let mut i: usize = 0;
        while i < n_chunks
            invariant
                i <= n_chunks,
                n_chunks == epoch.history_len as int / CHUNK_SIZE as int,
                number == epoch_at(epoch.block.block_number),
                chunk_ids@ == Seq::new(i as nat, |j: int| (number, j as usize)),
            decreases n_chunks - i,
        {
            proof {
                assert(Seq::new((i + 1) as nat, |j: int| (number, j as usize)) =~= Seq::new(i as nat, |j: int| (number, j as usize)).push((number, i)));
            }
            chunk_ids.push((number, i));
            i = i + 1;
        }
        proof {
            assert(chunk_ids@ =~= chunk_ids_for(epoch));
        }
        self.history_queue.add_ids(chunk_ids);
        let ghost before = self.pending_epochs@;
        self.pending_epochs.push(
            PendingEpoch { block: epoch.block, history_len: epoch.history_len as usize, history: Vec::new() },
        );
        self.epochs_received = self.epochs_received + 1;
        proof {
            assert forall|k: int| 0 <= k < self.pending_epochs@.len() implies epoch_at(
                (#[trigger] self.pending_epochs@[k]).block.block_number,
            ) == self.epoch_offset + self.epochs_received - self.pending_epochs@.len() + k by {
                if k < before.len() {
                    assert(self.pending_epochs@[k] == before[k]);
                }
            }
        }
        true
    }

    /// Adds a history chunk to the pending epoch it belongs to. Returns
    /// `false`, changing nothing, where no pending epoch has that number or
    /// the peer had no chunk.
    fn on_history_chunk_received(&mut self, epoch_number: u32, history_chunk: HistoryChunk) -> (r: bool)
        requires
            old(self).wf(),
        ensures
            final(self).wf(),
            r == old(self).chunk_fits(epoch_number, history_chunk),
            r ==> old(self).chunk_taken(&*final(self), epoch_number, history_chunk),
            !r ==> *final(self) == *old(self),
            final(self).ids_view() == old(self).ids_view(),
            final(self).offset() == old(self).offset(),
            final(self).epoch_queue == old(self).epoch_queue,
            final(self).history_queue == old(self).history_queue,
    {
        if self.pending_epochs.len() == 0 {
            return false;
        }
        let first = self.pending_epochs[0].epoch_number();
        if epoch_number < first {
            return false;
        }
        let idx = (epoch_number - first) as usize;
        if idx >= self.pending_epochs.len() {
            return false;
        }
        let ghost chunk_view = history_chunk.chunk;
        let mut chunk = match history_chunk.chunk {
            Some(c) => c.history,
            None => return false,
        };
        let ghost added = chunk@;
        proof {
            assert(added == chunk_view->Some_0.history@);
        }
        let ghost before = self.pending_epochs@;
        let mut epoch = self.pending_epochs.remove(idx);
        epoch.history.append(&mut chunk);
        self.pending_epochs.insert(idx, epoch);
        proof {
            assert forall|k: int| 0 <= k < self.pending_epochs@.len() && k != idx implies #[trigger] self.pending_epochs@[k] == before[k] by {}
            assert forall|k: int| 0 <= k < self.pending_epochs@.len() implies (#[trigger] self.pending_epochs@[k]).block == before[k].block by {
                if k != idx {
                    assert(self.pending_epochs@[k] == before[k]);
                }
            }
        }
        true
    }

    /// Hands out the oldest pending epoch if its history is complete.
    fn pop_epoch(&mut self) -> (r: Option<Epoch>)
        requires
            old(self).wf(),
        ensures
            final(self).wf(),
            final(self).ids_view() == old(self).ids_view(),
            final(self).offset() == old(self).offset(),
            final(self).epoch_queue == old(self).epoch_queue,
            final(self).history_queue == old(self).history_queue,
            r is None <==> !old(self).head_complete(),
            r is None ==> *final(self) == *old(self),
            r is None ==> final(self).num_emitted() == old(self).num_emitted()
                && final(self).num_pending_epochs() == old(self).num_pending_epochs()
                && final(self).pending_epochs == old(self).pending_epochs,
            r matches Some(e) ==> {
                &&& e.block == old(self).pending_view()[0].block
                &&& e.history@ == old(self).pending_view()[0].history@
                &&& e.history@.len() == old(self).pending_view()[0].history_len
                &&& final(self).pending_view() == old(self).pending_view().skip(1)
                &&& epoch_at(e.block.block_number) == old(self).offset() + old(self).num_emitted()
                &&& final(self).num_emitted() == old(self).num_emitted() + 1
                &&& final(self).num_pending_epochs() + 1 == old(self).num_pending_epochs()
            },
    {
        if self.pending_epochs.len() == 0 || !self.pending_epochs[0].is_complete() {
            return None;
        }
        let ghost before = self.pending_epochs@;
        let epoch = self.pending_epochs.remove(0);
        proof {
            assert forall|k: int| 0 <= k < self.pending_epochs@.len() implies #[trigger] self.pending_epochs@[k] == before[k + 1] by {}
            assert(self.pending_epochs@ =~= before.skip(1));
        }
        Some(Epoch { block: epoch.block, history: epoch.history })
    }

    /// One step: hands out the oldest pending epoch once its history is
    /// complete, or takes in one finished result (a macro block while fewer
    /// than `NUM_PENDING_EPOCHS` epochs are pending, else a history chunk),
    /// or reports that the cluster waits or is done. Epochs come out in
    /// order: the k-th one handed out is epoch `epoch_offset + k`.
    pub fn poll_next(&mut self) -> (r: ClusterPoll)
        requires
            old(self).wf(),
        ensures
            final(self).wf(),
            old(self).stepped(&*final(self), r),
    {
        if let Some(epoch) = self.pop_epoch() {
            return ClusterPoll::Epoch(epoch);
        }
        let ghost start = *self;
        if self.pending_epochs.len() < NUM_PENDING_EPOCHS {
            match self.epoch_queue.next_output() {
                Some(Ok(info)) => {
                    if self.on_epoch_received(info) {
                        return ClusterPoll::Progress;
                    } else {
                        return ClusterPoll::Failed;
                    }
                },
                Some(Err(_)) => return ClusterPoll::Failed,
                None => {},
            }
        }
        proof {
            assert(*self == start);
        }
        match self.history_queue.next_output() {
            Some(Ok((epoch_number, history_chunk))) => {
                if self.on_history_chunk_received(epoch_number, history_chunk) {
                    ClusterPoll::Progress
                } else {
                    ClusterPoll::Failed
                }
            },
            Some(Err(_)) => ClusterPoll::Failed,
            None => {
                if self.epoch_queue.is_empty() && self.pending_epochs.len() == 0 {
                    ClusterPoll::Finished
                } else {
                    ClusterPoll::Pending
                }
            },
        }
    }

    /// The requests to send now: macro blocks (while fewer than
    /// `NUM_PENDING_EPOCHS` epochs are pending) and history chunks.
    pub fn requests(&mut self) -> (r: (Vec<Request<Blake2bHash>>, Vec<Request<(u32, usize)>>))
        requires
            old(self).wf(),
        ensures
            final(self).wf(),
            old(self).requested(&*final(self), r.0@, r.1@),
    {
        let epochs = if self.pending_epochs.len() < NUM_PENDING_EPOCHS {
            self.epoch_queue.try_push_futures()
        } else {
            Vec::new()
        };
        let chunks = self.history_queue.try_push_futures();
        (epochs, chunks)
    }

    /// Takes the response to the macro block request at `index`.
    pub fn on_epoch_response(&mut self, index: usize, response: Option<BatchSetInfo>) -> (r: Option<Request<Blake2bHash>>)
        requires
            old(self).wf(),
        ensures
            final(self).wf(),
            old(self).epoch_responded(&*final(self), index, response, r),
    {
        self.epoch_queue.on_response(index, response)
    }

    /// Takes the response to the history chunk request at `index`.
    pub fn on_history_response(&mut self, index: usize, response: Option<(u32, HistoryChunk)>) -> (r: Option<Request<(u32, usize)>>)
        requires
            old(self).wf(),
        ensures
            final(self).wf(),
            old(self).history_responded(&*final(self), index, response, r),
    {
        self.history_queue.on_response(index, response)
    }

    /// Adds a peer to both queues.
    pub fn add_peer(&mut self, peer_id: u64)
        requires
            old(self).wf(),
        ensures
            final(self).wf(),
            final(self).ids_view() == old(self).ids_view(),
            final(self).offset() == old(self).offset(),
            final(self).num_emitted() == old(self).num_emitted(),
            final(self).peers_view() == old(self).peers_view().push(SyncQueuePeer { peer_id }),
    {
        self.epoch_queue.add_peer(peer_id);
        self.history_queue.add_peer(peer_id);
    }

    pub fn num_peers(&self) -> (r: usize)
        ensures
            r == self.peers_view().len(),
    {
        self.epoch_queue.num_peers()
    }

    /// Moves the epoch ids from position `at` on into a new cluster, which
    /// starts at epoch `epoch_offset + at` and has the same peers; this
    /// cluster stops requesting them.
    pub fn split_off(&mut self, at: usize) -> (r: SyncCluster)
        requires
            old(self).wf(),
            at <= old(self).ids_view().len(),
        ensures
            final(self).wf(),
            final(self).ids_view() == old(self).ids_view().take(at as int),
            final(self).offset() == old(self).offset(),
            final(self).num_emitted() == old(self).num_emitted(),
            final(self).peers_view() == old(self).peers_view(),
            r.wf(),
            r.ids_view() == old(self).ids_view().skip(at as int),
            r.offset() == old(self).offset() + at,
            r.peers_view() == old(self).peers_view(),
            r.num_emitted() == 0,
            r.num_pending_epochs() == 0,
            final(self).epoch_queue_spec().ids_view() == old(self).epoch_queue_spec().truncated_ids(at as int),
            final(self).pending_view() == old(self).pending_view(),
    {
        let ids = self.epoch_ids.split_off(at);
        let offset = self.epoch_offset + at;
        self.epoch_queue.truncate_ids(at);
        proof {
            assert(self.epoch_ids@ =~= old(self).epoch_ids@.take(at as int));
            assert(ids@ =~= old(self).epoch_ids@.skip(at as int));
        }
        SyncCluster::new(ids, offset, self.epoch_queue.peer_list())
    }

    pub fn epoch_offset(&self) -> (r: usize)
        ensures
            r == self.offset(),
    {
        self.epoch_offset
    }

    pub fn num_epoch_ids(&self) -> (r: usize)
        ensures
            r == self.ids_view().len(),
    {
        self.epoch_ids.len()
    }

    pub fn epoch_id_at(&self, i: usize) -> (r: Blake2bHash)
        requires
            i < self.ids_view().len(),
        ensures
            r == self.ids_view()[i as int],
    {
        self.epoch_ids[i]
    }

    /// The epoch ids, in order.
    pub fn epoch_ids(&self) -> (r: Vec<Blake2bHash>)
        ensures
            r@ == self.ids_view(),
    {
        copy_vec(&self.epoch_ids)
    }

    /// The peers, in rotation order.
    pub fn peers(&self) -> (r: Vec<SyncQueuePeer>)
        ensures
            r@ == self.peers_view(),
    {
        self.epoch_queue.peer_list()
    }

    /// The bounds a well-formed cluster keeps.
    pub proof fn lemma_bounds(&self)
        requires
            self.wf(),
        ensures
            self.offset() + self.ids_view().len() <= usize::MAX,
            self.num_emitted() >= 0,
    {
    }
}

} // verus!
