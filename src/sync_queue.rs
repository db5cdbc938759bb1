use vstd::prelude::*;

verus! {

/// A peer that a `SyncQueue` may send requests to, by its id.
#[derive(Clone, Copy, Debug, PartialEq, Eq, Structural)]
pub struct SyncQueuePeer {
    pub peer_id: u64,
}

/// A request in flight: which id, at which position of the enqueue order,
/// sent to which peer, on which try.
#[derive(Clone, Copy, Debug)]
pub struct PendingRequest<TId> {
    pub id: TId,
    pub index: usize,
    pub peer: usize,
    pub num_tries: usize,
}

/// A request that the driver is to send now.
#[derive(Clone, Copy, Debug)]
pub struct Request<TId> {
    pub id: TId,
    pub index: usize,
    pub peer_id: u64,
}

/// A finished request waiting for its turn: its output, or `None` where
/// every peer failed it.
pub struct QueuedOutput<TId, TOutput> {
    pub index: usize,
    pub id: TId,
    pub output: Option<TOutput>,
}

/// Requests a list of ids from a set of peers and hands out the results in
/// the order in which the ids were enqueued. At most `desired_pending_size`
/// requests are in flight or finished and waiting; a failed request goes to
/// the next peer until every peer has been tried, and then the id comes out
/// as an error in its place.
pub struct SyncQueue<TId, TOutput> {
    pub(crate) peers: Vec<SyncQueuePeer>,
    desired_pending_size: usize,
    ids_to_request: Vec<TId>,
    pending: Vec<PendingRequest<TId>>,
    queued_outputs: Vec<QueuedOutput<TId, TOutput>>,
    next_incoming_index: usize,
    next_outgoing_index: usize,
    current_peer_index: usize,
    /// The ids that were started, by index.
    started: Ghost<Seq<TId>>,
}

/// The peers of `s` whose id is not `peer_id`, in order.
pub open spec fn peers_without(s: Seq<SyncQueuePeer>, peer_id: u64) -> Seq<SyncQueuePeer>
    decreases s.len(),
{
    if s.len() == 0 {
        s
    } else if s.last().peer_id != peer_id {
        peers_without(s.drop_last(), peer_id).push(s.last())
    } else {
        peers_without(s.drop_last(), peer_id)
    }
}

impl<TId: Copy, TOutput> SyncQueue<TId, TOutput> {
    pub closed spec fn peers_view(&self) -> Seq<SyncQueuePeer> {
        self.peers@
    }

    pub closed spec fn ids_view(&self) -> Seq<TId> {
        self.ids_to_request@
    }

    pub closed spec fn desired_size(&self) -> nat {
        self.desired_pending_size as nat
    }

    /// Ids started so far, by index.
    pub closed spec fn started_ids(&self) -> Seq<TId> {
        self.started@
    }

    /// Number of ids started (the index the next one gets).
    pub closed spec fn incoming(&self) -> nat {
        self.next_incoming_index as nat
    }

    /// Number of results handed out (the index of the next one).
    pub closed spec fn outgoing(&self) -> nat {
        self.next_outgoing_index as nat
    }

    /// Position in `peers` of the peer that the next new request goes to,
    /// before reduction modulo the number of peers.
    pub closed spec fn current_peer(&self) -> nat {
        self.current_peer_index as nat
    }

    /// The request in flight for index `idx`.
    pub closed spec fn pending_at(&self, idx: int) -> PendingRequest<TId> {
        self.pending@[choose|k: int| 0 <= k < self.pending@.len() && (#[trigger] self.pending@[k]).index == idx]
    }

    /// The finished result at index `idx` is an output.
    pub closed spec fn queued_success(&self, idx: int) -> bool {
        exists|k: int|
            0 <= k < self.queued_outputs@.len() && (#[trigger] self.queued_outputs@[k]).index == idx
                && self.queued_outputs@[k].output is Some
    }

    /// The finished result at index `idx`: its output, or `None` where every
    /// peer failed it.
    pub closed spec fn queued_output(&self, idx: int) -> Option<TOutput> {
        self.queued_outputs@[choose|k: int|
            0 <= k < self.queued_outputs@.len() && (#[trigger] self.queued_outputs@[k]).index == idx].output
    }

    /// What `next_output` hands out: the finished result at the next index,
    /// as its output or as the id that failed; `None` where it is not
    /// finished.
    pub open spec fn next_result(&self) -> Option<Result<TOutput, TId>> {
        let idx = self.outgoing() as int;
        if self.queued_has(idx) {
            match self.queued_output(idx) {
                Some(o) => Some(Ok(o)),
                None => Some(Err(self.started_ids()[idx])),
            }
        } else {
            None
        }
    }

    /// Every slot but the one at `index` is the same in `self` and `next`.
    pub open spec fn other_slots_kept(&self, next: &Self, index: int) -> bool {
        forall|idx: int|
            idx != index ==> {
                &&& (#[trigger] next.pending_has(idx) <==> self.pending_has(idx))
                &&& (self.pending_has(idx) ==> next.pending_at(idx) == self.pending_at(idx))
                &&& (next.queued_has(idx) <==> self.queued_has(idx))
                &&& (self.queued_has(idx) ==> next.queued_output(idx) == self.queued_output(idx))
            }
    }

    proof fn lemma_pending_lookup(&self, k: int)
        requires
            self.wf(),
            0 <= k < self.pending@.len(),
        ensures
            self.pending_has(self.pending@[k].index as int),
            self.pending_at(self.pending@[k].index as int) == self.pending@[k],
    {
        let idx = self.pending@[k].index as int;
        assert(self.pending_has(idx));
        let j = choose|j: int| 0 <= j < self.pending@.len() && (#[trigger] self.pending@[j]).index == idx;
        assert(j == k);
    }

    proof fn lemma_queued_lookup(&self, k: int)
        requires
            self.wf(),
            0 <= k < self.queued_outputs@.len(),
        ensures
            self.queued_has(self.queued_outputs@[k].index as int),
            self.queued_output(self.queued_outputs@[k].index as int) == self.queued_outputs@[k].output,
    {
        let idx = self.queued_outputs@[k].index as int;
        assert(self.queued_has(idx));
        let j = choose|j: int| 0 <= j < self.queued_outputs@.len() && (#[trigger] self.queued_outputs@[j]).index == idx;
        assert(j == k);
    }

    /// Where the slots of `b` other than `index` are slots of `a` and the
    /// other way round, every other slot is kept.
    proof fn lemma_frame(a: &Self, b: &Self, index: int)
        requires
            a.wf(),
            b.wf(),
            forall|k: int| 0 <= k < b.pending@.len() && (#[trigger] b.pending@[k]).index != index ==> a.pending@.contains(b.pending@[k]),
            forall|k: int| 0 <= k < a.pending@.len() && (#[trigger] a.pending@[k]).index != index ==> b.pending@.contains(a.pending@[k]),
            forall|k: int| 0 <= k < b.queued_outputs@.len() && (#[trigger] b.queued_outputs@[k]).index != index ==> a.queued_outputs@.contains(b.queued_outputs@[k]),
            forall|k: int| 0 <= k < a.queued_outputs@.len() && (#[trigger] a.queued_outputs@[k]).index != index ==> b.queued_outputs@.contains(a.queued_outputs@[k]),
        ensures
            a.other_slots_kept(b, index),
    {
        assert forall|idx: int| idx != index implies {
            &&& (#[trigger] b.pending_has(idx) <==> a.pending_has(idx))
            &&& (a.pending_has(idx) ==> b.pending_at(idx) == a.pending_at(idx))
            &&& (b.queued_has(idx) <==> a.queued_has(idx))
            &&& (a.queued_has(idx) ==> b.queued_output(idx) == a.queued_output(idx))
        } by {
            if b.pending_has(idx) {
                let k = choose|k: int| 0 <= k < b.pending@.len() && (#[trigger] b.pending@[k]).index == idx;
                let j = choose|j: int| 0 <= j < a.pending@.len() && a.pending@[j] == b.pending@[k];
                assert(a.pending@[j].index == idx);
            }
            if a.pending_has(idx) {
                let j = choose|j: int| 0 <= j < a.pending@.len() && (#[trigger] a.pending@[j]).index == idx;
                let k = choose|k: int| 0 <= k < b.pending@.len() && b.pending@[k] == a.pending@[j];
                assert(b.pending@[k].index == idx);
                a.lemma_pending_lookup(j);
                b.lemma_pending_lookup(k);
            }
            if b.queued_has(idx) {
                let k = choose|k: int| 0 <= k < b.queued_outputs@.len() && (#[trigger] b.queued_outputs@[k]).index == idx;
                let j = choose|j: int| 0 <= j < a.queued_outputs@.len() && a.queued_outputs@[j] == b.queued_outputs@[k];
                assert(a.queued_outputs@[j].index == idx);
            }
            if a.queued_has(idx) {
                let j = choose|j: int| 0 <= j < a.queued_outputs@.len() && (#[trigger] a.queued_outputs@[j]).index == idx;
                let k = choose|k: int| 0 <= k < b.queued_outputs@.len() && b.queued_outputs@[k] == a.queued_outputs@[j];
                assert(b.queued_outputs@[k].index == idx);
                a.lemma_queued_lookup(j);
                b.lemma_queued_lookup(k);
            }
        }
    }

    pub closed spec fn num_pending(&self) -> nat {
        self.pending@.len()
    }

    pub closed spec fn num_queued(&self) -> nat {
        self.queued_outputs@.len()
    }

    pub closed spec fn pending_has(&self, idx: int) -> bool {
        exists|k: int| 0 <= k < self.pending@.len() && (#[trigger] self.pending@[k]).index == idx
    }

    pub closed spec fn queued_has(&self, idx: int) -> bool {
        exists|k: int|
            0 <= k < self.queued_outputs@.len() && (#[trigger] self.queued_outputs@[k]).index == idx
    }

    /// The result at `idx` is finished and is an error for this id.
    pub closed spec fn queued_failure(&self, idx: int, id: TId) -> bool {
        exists|k: int|
            0 <= k < self.queued_outputs@.len() && (#[trigger] self.queued_outputs@[k]).index == idx
                && self.queued_outputs@[k].output is None && self.queued_outputs@[k].id == id
    }

    pub closed spec fn wf(&self) -> bool {
        &&& self.next_outgoing_index <= self.next_incoming_index
        &&& self.started@.len() == self.next_incoming_index
        &&& self.pending@.len() + self.queued_outputs@.len() <= self.desired_pending_size
        &&& self.ids_to_request@.len() + self.pending@.len() + self.queued_outputs@.len() <= usize::MAX
        &&& self.next_incoming_index + self.ids_to_request@.len() <= usize::MAX
        // every slot lies in the window of started, not yet handed out indices
        &&& forall|k: int| 0 <= k < self.pending@.len() ==> {
            let p = #[trigger] self.pending@[k];
            &&& self.next_outgoing_index <= p.index < self.next_incoming_index
            &&& p.id == self.started@[p.index as int]
            &&& p.num_tries >= 1
        }
        &&& forall|k: int| 0 <= k < self.queued_outputs@.len() ==> {
            let q = #[trigger] self.queued_outputs@[k];
            &&& self.next_outgoing_index <= q.index < self.next_incoming_index
            &&& q.id == self.started@[q.index as int]
        }
        // no index is held twice
        &&& forall|k: int, l: int|
            0 <= k < self.pending@.len() && 0 <= l < self.pending@.len() && k != l
                ==> (#[trigger] self.pending@[k]).index != (#[trigger] self.pending@[l]).index
        &&& forall|k: int, l: int|
            0 <= k < self.queued_outputs@.len() && 0 <= l < self.queued_outputs@.len() && k != l
                ==> (#[trigger] self.queued_outputs@[k]).index != (
            #[trigger] self.queued_outputs@[l]).index
        &&& forall|k: int, l: int|
            0 <= k < self.pending@.len() && 0 <= l < self.queued_outputs@.len()
                ==> (#[trigger] self.pending@[k]).index != (#[trigger] self.queued_outputs@[l]).index
        // and none is lost
        &&& forall|idx: int|
            self.next_outgoing_index <= idx < self.next_incoming_index ==> #[trigger] self.pending_has(idx)
                || self.queued_has(idx)
    }

    /// What `try_push_futures` does: from `self` to `next`, starting the
    /// requests `r`.
    pub open spec fn started_requests(&self, next: &Self, r: Seq<Request<TId>>) -> bool {
        let n = self.peers_view().len() as int;
        let m = self.num_to_start();
        &&& r.len() == m
        &&& next.ids_view() == self.ids_view().skip(m)
        &&& next.started_ids() == self.started_ids() + self.ids_view().take(m)
        &&& next.incoming() == self.incoming() + m
        &&& next.num_pending() == self.num_pending() + m
        &&& forall|i: int| 0 <= i < m ==> {
            &&& (#[trigger] r[i]).id == self.ids_view()[i]
            &&& r[i].index == self.incoming() + i
            &&& r[i].peer_id == self.peers_view()[(self.current_peer() + i) % n].peer_id
            &&& next.pending_has(r[i].index as int)
            &&& next.pending_at(r[i].index as int).num_tries == 1
        }
        &&& next.outgoing() == self.outgoing()
        &&& next.num_queued() == self.num_queued()
        &&& next.peers_view() == self.peers_view()
        &&& next.desired_size() == self.desired_size()
    }

    /// How many requests `try_push_futures` starts: as many ids as are left
    /// and fit in the window, and none where there is no peer.
    pub open spec fn num_to_start(&self) -> int {
        let free = self.desired_size() - self.num_pending() - self.num_queued();
        if self.peers_view().len() == 0 {
            0
        } else if self.ids_view().len() < free {
            self.ids_view().len() as int
        } else {
            free
        }
    }

    /// The ids still to request after keeping the first `len` counted from
    /// the first id ever enqueued.
    pub open spec fn truncated_ids(&self, len: int) -> Seq<TId> {
        if len <= self.incoming() {
            Seq::empty()
        } else {
            self.ids_view().take(vstd::math::min(len - self.incoming(), self.ids_view().len() as int))
        }
    }

    /// What `on_response` does: from `self` to `next`, given the response
    /// `output` for the request at `index`, returning `r`.
    pub open spec fn responded(&self, next: &Self, index: usize, output: Option<TOutput>, r: Option<Request<TId>>) -> bool {
        &&& next.started_ids() == self.started_ids()
        &&& next.incoming() == self.incoming()
        &&& next.outgoing() == self.outgoing()
        &&& next.ids_view() == self.ids_view()
        &&& next.peers_view() == self.peers_view()
        &&& next.desired_size() == self.desired_size()
        &&& !self.pending_has(index as int) ==> r is None && next.num_pending()
                == self.num_pending() && next.num_queued() == self.num_queued()
        &&& self.pending_has(index as int) ==> ({
                let p = self.pending_at(index as int);
                let n = self.peers_view().len() as int;
                &&& output is Some ==> r is None && next.queued_success(index as int)
                    && next.queued_has(index as int) && next.queued_output(index as int) == output
                    && !next.pending_has(index as int)
                &&& output is None && p.num_tries >= n ==> r is None && next.queued_failure(
                    index as int,
                    p.id,
                ) && next.queued_has(index as int) && next.queued_output(index as int) is None
                    && !next.pending_has(index as int)
                &&& output is None && p.num_tries < n ==> {
                    &&& r is Some
                    &&& r->Some_0.id == p.id
                    &&& r->Some_0.index == index
                    &&& r->Some_0.peer_id == self.peers_view()[(p.peer + 1) % n].peer_id
                    &&& next.pending_has(index as int)
                    &&& next.pending_at(index as int).num_tries == p.num_tries + 1
                }
            })
        &&& self.other_slots_kept(next, index as int)
    }

    /// A queue over `ids`, asking `peers`, with at most `desired_pending_size`
    /// requests in flight or waiting.
    pub fn new(ids: Vec<TId>, peers: Vec<SyncQueuePeer>, desired_pending_size: usize) -> (r: Self)
        ensures
            r.wf(),
            r.ids_view() == ids@,
            r.peers_view() == peers@,
            r.desired_size() == desired_pending_size,
            r.incoming() == 0,
            r.outgoing() == 0,
            r.num_pending() == 0,
            r.num_queued() == 0,
    {
        let _n = ids.len();
        SyncQueue {
            peers,
            desired_pending_size,
            ids_to_request: ids,
            pending: Vec::new(),
            queued_outputs: Vec::new(),
            next_incoming_index: 0,
            next_outgoing_index: 0,
            current_peer_index: 0,
            started: Ghost(Seq::empty()),
        }
    }

    fn find_pending(&self, index: usize) -> (r: Option<usize>)
        ensures
            match r {
                Some(k) => k < self.pending@.len() && self.pending@[k as int].index == index,
                None => !self.pending_has(index as int),
            },
    {
        let mut k: usize = 0;
        while k < self.pending.len()
            invariant
                k <= self.pending@.len(),
                forall|j: int| 0 <= j < k ==> (#[trigger] self.pending@[j]).index != index,
            decreases self.pending@.len() - k,
        {
            if self.pending[k].index == index {
                return Some(k);
            }
            k = k + 1;
        }
        None
    }

    fn find_queued(&self, index: usize) -> (r: Option<usize>)
        ensures
            match r {
                Some(k) => k < self.queued_outputs@.len() && self.queued_outputs@[k as int].index == index,
                None => !self.queued_has(index as int),
            },
    {
        let mut k: usize = 0;
        while k < self.queued_outputs.len()
            invariant
                k <= self.queued_outputs@.len(),
                forall|j: int| 0 <= j < k ==> (#[trigger] self.queued_outputs@[j]).index != index,
            decreases self.queued_outputs@.len() - k,
        {
            if self.queued_outputs[k].index == index {
                return Some(k);
            }
            k = k + 1;
        }
        None
    }

    /// Starts requests for the next ids, as many as keep the requests in
    /// flight or waiting within `desired_pending_size`, assigning peers
    /// round-robin. Returns the requests to send; none where there is no
    /// peer.
    pub fn try_push_futures(&mut self) -> (r: Vec<Request<TId>>)
        requires
            old(self).wf(),
        ensures
            final(self).wf(),
            old(self).started_requests(&*final(self), r@),
    {
        let mut requests: Vec<Request<TId>> = Vec::new();
        let n = self.peers.len();
        if n == 0 {
            proof {
                assert(self.ids_to_request@.skip(0) =~= self.ids_to_request@);
                assert(self.started@ + self.ids_to_request@.take(0) =~= self.started@);
            }
            return requests;
        }
        let free = self.desired_pending_size - (self.pending.len() + self.queued_outputs.len());
        let m = if self.ids_to_request.len() < free {
            self.ids_to_request.len()
        } else {
            free
        };
        let ghost old_ids = self.ids_to_request@;
        let ghost old_started = self.started@;
        let ghost c0 = self.current_peer_index as int;
        let ghost in0 = self.next_incoming_index as int;
        let ghost np0 = self.pending@.len();
        let ghost before_all = *self;
        let mut i: usize = 0;
        proof {
            vstd::arithmetic::div_mod::lemma_mod_pos_bound(c0, n as int);
            assert(old_ids.skip(0) =~= old_ids);
            assert(old_started + old_ids.take(0) =~= old_started);
        }
        while i < m
            invariant
                self.wf(),
                0 <= c0,
                self.next_outgoing_index == before_all.next_outgoing_index,
                self.queued_outputs@ == before_all.queued_outputs@,
                self.peers@ == before_all.peers@,
                self.desired_pending_size == before_all.desired_pending_size,
                n == self.peers@.len(),
                n > 0,
                m <= old_ids.len(),
                self.pending@.len() + self.queued_outputs@.len() + (m - i) <= self.desired_pending_size,
                i <= m,
                self.ids_to_request@ == old_ids.skip(i as int),
                self.started@ == old_started + old_ids.take(i as int),
                self.next_incoming_index == in0 + i,
                self.pending@.len() == np0 + i,
                requests@.len() == i,
                i > 0 ==> self.current_peer_index == (c0 + i) % (n as int),
                i == 0 ==> self.current_peer_index == c0,
                forall|j: int| 0 <= j < i ==> (#[trigger] self.pending@[np0 + j]).index == in0 + j
                    && self.pending@[np0 + j].num_tries == 1,
                forall|j: int| 0 <= j < i ==> {
                    &&& (#[trigger] requests@[j]).id == old_ids[j]
                    &&& requests@[j].index == in0 + j
                    &&& requests@[j].peer_id == self.peers@[(c0 + j) % (n as int)].peer_id
                    &&& self.pending_has(requests@[j].index as int)
                },
            decreases m - i,
        {
            let ghost before = *self;
            let id = self.ids_to_request.remove(0);
            let peer = self.current_peer_index % n;
            let index = self.next_incoming_index;
            proof {
                assert(old_ids.skip(i as int)[0] == old_ids[i as int]);
                assert(self.ids_to_request@ =~= old_ids.skip(i + 1));
                if i > 0 {
                    vstd::arithmetic::div_mod::lemma_mod_pos_bound(c0 + i, n as int);
                    vstd::arithmetic::div_mod::lemma_small_mod(((c0 + i) % (n as int)) as nat, n as nat);
                } 
                assert(peer == (c0 + i) % (n as int));
            }
            self.pending.push(PendingRequest { id, index, peer, num_tries: 1 });
            requests.push(Request { id, index, peer_id: self.peers[peer].peer_id });
            proof {
                self.started@ = self.started@.push(id);
                assert(self.started@ =~= old_started + old_ids.take(i + 1));
                vstd::arithmetic::div_mod::lemma_add_mod_noop_right(1, c0 + i, n as int);
            }
            self.next_incoming_index = index + 1;
            self.current_peer_index = (peer + 1) % n;
            proof {
                let k_new = self.pending@.len() - 1;
                assert(self.pending@[k_new].index == index);
                assert forall|k: int| 0 <= k < self.pending@.len() implies {
                    let p = #[trigger] self.pending@[k];
                    &&& self.next_outgoing_index <= p.index < self.next_incoming_index
                    &&& p.id == self.started@[p.index as int]
                    &&& p.num_tries >= 1
                } by {
                    if k < k_new {
                        assert(self.pending@[k] == before.pending@[k]);
                    }
                }
                assert forall|k: int| 0 <= k < self.queued_outputs@.len() implies {
                    let q = #[trigger] self.queued_outputs@[k];
                    &&& self.next_outgoing_index <= q.index < self.next_incoming_index
                    &&& q.id == self.started@[q.index as int]
                } by {}
                assert forall|idx: int| self.next_outgoing_index <= idx < self.next_incoming_index implies #[trigger] self.pending_has(idx)
                    || self.queued_has(idx) by {
                    if idx == index {
                        assert(self.pending@[k_new].index == idx);
                    } else {
                        assert(before.pending_has(idx) || before.queued_has(idx));
                        if before.pending_has(idx) {
                            let k = choose|k: int| 0 <= k < before.pending@.len() && (#[trigger] before.pending@[k]).index == idx;
                            assert(self.pending@[k] == before.pending@[k]);
                        }
                    }
                }
                assert forall|j: int| 0 <= j < i + 1 implies (#[trigger] self.pending@[np0 + j]).index == in0 + j
                    && self.pending@[np0 + j].num_tries == 1 by {
                    if j < i {
                        assert(self.pending@[np0 + j] == before.pending@[np0 + j]);
                    }
                }
                assert forall|j: int| 0 <= j < i + 1 implies self.pending_has((#[trigger] requests@[j]).index as int) by {
                    if j < i {
                        assert(before.pending_has(requests@[j].index as int));
                        let k = choose|k: int| 0 <= k < before.pending@.len() && (#[trigger] before.pending@[k]).index == requests@[j].index;
                        assert(self.pending@[k] == before.pending@[k]);
                    } else {
                        assert(self.pending@[k_new].index == requests@[j].index);
                    }
                }
            }
            i = i + 1;
        }
        proof {
            if i == 0 {
                assert(old_ids.skip(0) =~= old_ids);
            }
            assert forall|j: int| 0 <= j < i implies self.pending_at((#[trigger] requests@[j]).index as int).num_tries == 1 by {
                self.lemma_pending_lookup(np0 + j);
            }
        }
        requests
    }

    /// Takes the response to the request at `index`: an output, or `None`
    /// where the request failed. An output waits for its turn; a failure is
    /// sent again to the next peer, unless as many tries as there are peers
    /// were made, and then the id waits for its turn as an error. Returns the
    /// request to send again, if any. A response for an index that has no
    /// request in flight changes nothing.
    pub fn on_response(&mut self, index: usize, output: Option<TOutput>) -> (r: Option<Request<TId>>)
        requires
            old(self).wf(),
        ensures
            final(self).wf(),
            old(self).responded(&*final(self), index, output, r),
    {
        let k = match self.find_pending(index) {
            Some(k) => k,
            None => return None,
        };
        let ghost before = *self;
        proof {
            let j = choose|j: int| 0 <= j < before.pending@.len() && (#[trigger] before.pending@[j]).index == index;
            assert(j == k);
        }
        let p = self.pending.remove(k);
        let ghost removed = *self;
        proof {
            assert forall|j: int| 0 <= j < removed.pending@.len() implies #[trigger] removed.pending@[j] == before.pending@[if j < k { j } else { j + 1 }] && removed.pending@[j].index != index by {
                let j2 = if j < k { j } else { j + 1 };
                assert(j2 != k);
            }
            assert forall|l: int| 0 <= l < before.queued_outputs@.len() implies (#[trigger] before.queued_outputs@[l]).index != index by {
                assert(before.pending@[k as int].index != before.queued_outputs@[l].index);
            }
        }
        let n = self.peers.len();
        let r = match output {
            Some(out) => {
                self.queued_outputs.push(QueuedOutput { index, id: p.id, output: Some(out) });
                None
            },
            None => {
                if p.num_tries >= n {
                    self.queued_outputs.push(QueuedOutput { index, id: p.id, output: None });
                    None
                } else {
                    let next = (p.peer % n + 1) % n;
                    proof {
                        vstd::arithmetic::div_mod::lemma_add_mod_noop_right(1, p.peer as int, n as int);
                    }
                    self.pending.push(
                        PendingRequest { id: p.id, index, peer: next, num_tries: p.num_tries + 1 },
                    );
                    Some(Request { id: p.id, index, peer_id: self.peers[next].peer_id })
                }
            },
        };
        proof {
            let np = self.pending@.len();
            let nq = self.queued_outputs@.len();
            if np > removed.pending@.len() {
                // sent again
                assert(self.queued_outputs@ == before.queued_outputs@);
                assert(self.pending@[np - 1].index == index);
                assert forall|j: int| 0 <= j < np - 1 implies #[trigger] self.pending@[j] == removed.pending@[j] by {}
                assert forall|idx: int| self.next_outgoing_index <= idx < self.next_incoming_index implies #[trigger] self.pending_has(idx)
                    || self.queued_has(idx) by {
                    if idx == index {
                        assert(self.pending@[np - 1].index == idx);
                    } else if before.pending_has(idx) {
                        let j = choose|j: int| 0 <= j < before.pending@.len() && (#[trigger] before.pending@[j]).index == idx;
                        assert(j != k);
                        let j2 = if j < k { j } else { j - 1 };
                        assert(self.pending@[j2] == before.pending@[j]);
                    } else {
                        assert(before.queued_has(idx));
                    }
                }
                let jj = choose|j: int| 0 <= j < self.pending@.len() && (#[trigger] self.pending@[j]).index == index;
                assert(jj == np - 1);
            } else {
                // waiting for its turn
                assert(self.pending@ == removed.pending@);
                assert(self.queued_outputs@[nq - 1].index == index);
                assert forall|j: int| 0 <= j < nq - 1 implies #[trigger] self.queued_outputs@[j] == before.queued_outputs@[j] by {}
                assert forall|idx: int| self.next_outgoing_index <= idx < self.next_incoming_index implies #[trigger] self.pending_has(idx)
                    || self.queued_has(idx) by {
                    if idx == index {
                        assert(self.queued_outputs@[nq - 1].index == idx);
                    } else if before.pending_has(idx) {
                        let j = choose|j: int| 0 <= j < before.pending@.len() && (#[trigger] before.pending@[j]).index == idx;
                        assert(j != k);
                        let j2 = if j < k { j } else { j - 1 };
                        assert(self.pending@[j2] == before.pending@[j]);
                    } else {
                        let j = choose|j: int| 0 <= j < before.queued_outputs@.len() && (#[trigger] before.queued_outputs@[j]).index == idx;
                        assert(self.queued_outputs@[j] == before.queued_outputs@[j]);
                    }
                }
                assert(!self.pending_has(index as int));
                self.lemma_queued_lookup(nq - 1);
            }
            assert forall|j: int| 0 <= j < before.pending@.len() && (#[trigger] before.pending@[j]).index != index implies self.pending@.contains(before.pending@[j]) by {
                assert(j != k);
                let j2 = if j < k { j } else { j - 1 };
                assert(removed.pending@[j2] == before.pending@[j]);
                assert(self.pending@[j2] == removed.pending@[j2]);
            }
            assert forall|j: int| 0 <= j < self.pending@.len() && (#[trigger] self.pending@[j]).index != index implies before.pending@.contains(self.pending@[j]) by {
                assert(j < removed.pending@.len());
                assert(self.pending@[j] == removed.pending@[j]);
                let j2 = if j < k { j } else { j + 1 };
                assert(before.pending@[j2] == removed.pending@[j]);
            }
            assert forall|j: int| 0 <= j < before.queued_outputs@.len() && (#[trigger] before.queued_outputs@[j]).index != index implies self.queued_outputs@.contains(before.queued_outputs@[j]) by {
                assert(self.queued_outputs@[j] == before.queued_outputs@[j]);
            }
            assert forall|j: int| 0 <= j < self.queued_outputs@.len() && (#[trigger] self.queued_outputs@[j]).index != index implies before.queued_outputs@.contains(self.queued_outputs@[j]) by {
                assert(j < before.queued_outputs@.len());
                assert(self.queued_outputs@[j] == before.queued_outputs@[j]);
            }
            Self::lemma_frame(&before, self, index as int);
        }
        r
    }

    /// Hands out the next result in enqueue order, if it is finished: the
    /// output, or the id as an error where every peer failed it.
    pub fn next_output(&mut self) -> (r: Option<Result<TOutput, TId>>)
        requires
            old(self).wf(),
        ensures
            final(self).wf(),
            final(self).started_ids() == old(self).started_ids(),
            final(self).incoming() == old(self).incoming(),
            final(self).ids_view() == old(self).ids_view(),
            final(self).peers_view() == old(self).peers_view(),
            final(self).desired_size() == old(self).desired_size(),
            final(self).num_pending() == old(self).num_pending(),
            r == old(self).next_result(),
            r is Some <==> old(self).queued_has(old(self).outgoing() as int),
            r is None ==> final(self).outgoing() == old(self).outgoing() && final(self).num_queued()
                == old(self).num_queued(),
            r is None ==> !final(self).queued_has(final(self).outgoing() as int),
            r is None ==> *final(self) == *old(self),
            r is Some ==> final(self).outgoing() == old(self).outgoing() + 1
                && final(self).num_queued() == old(self).num_queued() - 1,
            r matches Some(Err(id)) ==> id == old(self).started_ids()[old(self).outgoing() as int]
                && old(self).queued_failure(old(self).outgoing() as int, id),
            r matches Some(Ok(_)) ==> old(self).queued_success(old(self).outgoing() as int),
    {
        let k = match self.find_queued(self.next_outgoing_index) {
            Some(k) => k,
            None => return None,
        };
        let ghost before = *self;
        let out = self.next_outgoing_index;
        let q = self.queued_outputs.remove(k);
        self.next_outgoing_index = out + 1;
        proof {
            assert forall|j: int| 0 <= j < self.queued_outputs@.len() implies #[trigger] self.queued_outputs@[j] == before.queued_outputs@[if j < k { j } else { j + 1 }] by {}
            assert forall|j: int| 0 <= j < self.queued_outputs@.len() implies (#[trigger] self.queued_outputs@[j]).index != out by {
                let j2 = if j < k { j } else { j + 1 };
                assert(j2 != k);
                assert(before.queued_outputs@[j2].index != before.queued_outputs@[k as int].index);
            }
            assert forall|j: int| 0 <= j < self.pending@.len() implies (#[trigger] self.pending@[j]).index != out by {
                assert(before.pending@[j].index != before.queued_outputs@[k as int].index);
            }
            assert forall|idx: int| self.next_outgoing_index <= idx < self.next_incoming_index implies #[trigger] self.pending_has(idx)
                || self.queued_has(idx) by {
                if !before.pending_has(idx) {
                    let j = choose|j: int| 0 <= j < before.queued_outputs@.len() && (#[trigger] before.queued_outputs@[j]).index == idx;
                    assert(j != k);
                    let j2 = if j < k { j } else { j - 1 };
                    assert(self.queued_outputs@[j2] == before.queued_outputs@[j]);
                }
            }
            if q.output is None {
                assert(before.queued_failure(out as int, q.id));
            } else {
                assert(before.queued_success(out as int));
            }
        }
        match q.output {
            Some(o) => Some(Ok(o)),
            None => Some(Err(q.id)),
        }
    }

    /// A state with the same slots and counters as a well-formed one, and ids
    /// within the length bounds, is well formed.
    proof fn lemma_same_slots(a: &Self, b: &Self)
        requires
            a.wf(),
            b.pending@ == a.pending@,
            b.queued_outputs@ == a.queued_outputs@,
            b.started@ == a.started@,
            b.next_incoming_index == a.next_incoming_index,
            b.next_outgoing_index == a.next_outgoing_index,
            b.desired_pending_size == a.desired_pending_size,
            b.ids_to_request@.len() + b.pending@.len() + b.queued_outputs@.len() <= usize::MAX,
            b.next_incoming_index + b.ids_to_request@.len() <= usize::MAX,
        ensures
            b.wf(),
    {
        assert forall|idx: int| b.next_outgoing_index <= idx < b.next_incoming_index implies #[trigger] b.pending_has(idx)
            || b.queued_has(idx) by {
            assert(a.pending_has(idx) || a.queued_has(idx));
        }
    }

    /// Adds a peer at the end of the rotation.
    pub fn add_peer(&mut self, peer_id: u64)
        requires
            old(self).wf(),
        ensures
            final(self).wf(),
            final(self).peers_view() == old(self).peers_view().push(SyncQueuePeer { peer_id }),
            final(self).desired_size() == old(self).desired_size(),
            final(self).num_pending() == old(self).num_pending(),
            final(self).num_queued() == old(self).num_queued(),
            final(self).ids_view() == old(self).ids_view(),
            final(self).incoming() == old(self).incoming(),
            final(self).outgoing() == old(self).outgoing(),
    {
        let ghost before = *self;
        self.peers.push(SyncQueuePeer { peer_id });
        proof {
            Self::lemma_same_slots(&before, self);
        }
    }

    /// Removes every peer with this id.
    pub fn remove_peer(&mut self, peer_id: u64)
        requires
            old(self).wf(),
        ensures
            final(self).wf(),
            final(self).peers_view() == peers_without(old(self).peers_view(), peer_id),
            final(self).desired_size() == old(self).desired_size(),
            final(self).num_pending() == old(self).num_pending(),
            final(self).num_queued() == old(self).num_queued(),
            final(self).ids_view() == old(self).ids_view(),
            final(self).incoming() == old(self).incoming(),
            final(self).outgoing() == old(self).outgoing(),
    {
        let mut kept: Vec<SyncQueuePeer> = Vec::new();
        let mut i: usize = 0;
        while i < self.peers.len()
            invariant
                i <= self.peers@.len(),
                kept@ == peers_without(self.peers@.take(i as int), peer_id),
            decreases self.peers@.len() - i,
        {
            proof {
                assert(self.peers@.take(i + 1).drop_last() =~= self.peers@.take(i as int));
            }
            proof {
                assert(self.peers@.take(i + 1).last() == self.peers@[i as int]);
            }
            if self.peers[i].peer_id != peer_id {
                kept.push(self.peers[i]);
            }
            i = i + 1;
        }
        proof {
            assert(self.peers@.take(self.peers@.len() as int) =~= self.peers@);
        }
        let ghost before = *self;
        self.peers = kept;
        proof {
            Self::lemma_same_slots(&before, self);
        }
    }

    /// Whether a peer with this id is in the rotation.
    pub fn has_peer(&self, peer_id: u64) -> (r: bool)
        ensures
            r == exists|k: int| 0 <= k < self.peers_view().len() && (#[trigger] self.peers_view()[k]).peer_id == peer_id,
    {
        let mut i: usize = 0;
        while i < self.peers.len()
            invariant
                i <= self.peers@.len(),
                forall|j: int| 0 <= j < i ==> (#[trigger] self.peers@[j]).peer_id != peer_id,
            decreases self.peers@.len() - i,
        {
            if self.peers[i].peer_id == peer_id {
                proof {
                    assert(self.peers_view()[i as int].peer_id == peer_id);
                }
                return true;
            }
            i = i + 1;
        }
        false
    }

    /// Appends ids to request.
    pub fn add_ids(&mut self, ids: Vec<TId>)
        requires
            old(self).wf(),
            old(self).incoming() + old(self).ids_view().len() + ids@.len() + old(self).desired_size() <= usize::MAX,
        ensures
            final(self).wf(),
            final(self).ids_view() == old(self).ids_view() + ids@,
            final(self).peers_view() == old(self).peers_view(),
            final(self).desired_size() == old(self).desired_size(),
            final(self).started_ids() == old(self).started_ids(),
            final(self).incoming() == old(self).incoming(),
            final(self).outgoing() == old(self).outgoing(),
            final(self).num_pending() == old(self).num_pending(),
            final(self).num_queued() == old(self).num_queued(),
    {
        let ghost before = *self;
        let mut ids = ids;
        self.ids_to_request.append(&mut ids);
        proof {
            Self::lemma_same_slots(&before, self);
        }
    }

    /// Keeps only the first `len` ids, counted from the first id ever
    /// enqueued: of those not started yet, `len - num_items_started()` stay.
    pub fn truncate_ids(&mut self, len: usize)
        requires
            old(self).wf(),
        ensures
            final(self).wf(),
            final(self).ids_view() == old(self).truncated_ids(len as int),
            final(self).peers_view() == old(self).peers_view(),
            final(self).incoming() == old(self).incoming(),
            final(self).outgoing() == old(self).outgoing(),
            final(self).num_pending() == old(self).num_pending(),
            final(self).num_queued() == old(self).num_queued(),
    {
        let ghost before = *self;
        let keep = len.saturating_sub(self.next_incoming_index);
        self.ids_to_request.truncate(keep);
        proof {
            Self::lemma_same_slots(&before, self);
            if len <= self.next_incoming_index {
                assert(self.ids_to_request@ =~= Seq::empty());
            } else if keep >= old(self).ids_to_request@.len() {
                assert(self.ids_to_request@ =~= old(self).ids_to_request@.take(old(self).ids_to_request@.len() as int));
            }
        }
    }

    pub fn num_peers(&self) -> (r: usize)
        ensures
            r == self.peers_view().len(),
    {
        self.peers.len()
    }

    /// Ids still to request, plus requests in flight, plus results waiting.
    pub fn len(&self) -> (r: usize)
        requires
            self.wf(),
        ensures
            r == self.ids_view().len() + self.num_pending() + self.num_queued(),
    {
        self.ids_to_request.len() + self.pending.len() + self.queued_outputs.len()
    }

    pub fn is_empty(&self) -> (r: bool)
        requires
            self.wf(),
        ensures
            r == (self.ids_view().len() + self.num_pending() + self.num_queued() == 0),
    {
        self.len() == 0
    }

    pub fn num_items_started(&self) -> (r: usize)
        ensures
            r == self.incoming(),
    {
        self.next_incoming_index
    }

    pub fn num_items_finished(&self) -> (r: usize)
        ensures
            r == self.outgoing(),
    {
        self.next_outgoing_index
    }

    /// The queue has nothing more to hand out: nothing is in flight or
    /// waiting, and no id is left or no peer is left to ask.
    pub fn is_finished(&self) -> (r: bool)
        ensures
            r == (self.num_pending() == 0 && self.num_queued() == 0 && (self.ids_view().len() == 0
                || self.peers_view().len() == 0)),
    {
        self.pending.len() == 0 && self.queued_outputs.len() == 0 && (self.ids_to_request.len() == 0
            || self.peers.len() == 0)
    }

    /// Results are handed out in the order of their indices, and the window of
    /// requests in flight or waiting holds each started index that was not
    /// handed out yet exactly once: no id is lost or answered twice.
    pub proof fn lemma_each_started_id_once(&self, idx: int)
        requires
            self.wf(),
            self.outgoing() <= idx < self.incoming(),
        ensures
            self.pending_has(idx) || self.queued_has(idx),
            !(self.pending_has(idx) && self.queued_has(idx)),
            self.pending_has(idx) ==> self.pending_at(idx).id == self.started_ids()[idx],
    {
        if self.pending_has(idx) && self.queued_has(idx) {
            let k = choose|k: int| 0 <= k < self.pending@.len() && (#[trigger] self.pending@[k]).index == idx;
            let l = choose|l: int| 0 <= l < self.queued_outputs@.len() && (#[trigger] self.queued_outputs@[l]).index == idx;
            assert(self.pending@[k].index != self.queued_outputs@[l].index);
        }
    }

    /// The counters never cross, and the requests in flight plus the results
    /// waiting never exceed the desired window.
    pub proof fn lemma_window_bounds(&self)
        requires
            self.wf(),
        ensures
            self.outgoing() <= self.incoming(),
            self.incoming() == self.started_ids().len(),
            self.num_pending() + self.num_queued() <= self.desired_size(),
    {
    }

    /// The peers, in rotation order.
    pub fn peer_list(&self) -> (r: Vec<SyncQueuePeer>)
        ensures
            r@ == self.peers_view(),
    {
        let mut r: Vec<SyncQueuePeer> = Vec::new();
        let mut i: usize = 0;
        while i < self.peers.len()
            invariant
                i <= self.peers@.len(),
                r@ == self.peers@.take(i as int),
            decreases self.peers@.len() - i,
        {
            proof {
                assert(self.peers@.take(i + 1) =~= self.peers@.take(i as int).push(self.peers@[i as int]));
            }
            r.push(self.peers[i]);
            i = i + 1;
        }
        proof {
            assert(self.peers@.take(self.peers@.len() as int) =~= self.peers@);
        }
        r
    }

    /// Both bounds of the number of results still to come: `len()`.
    pub fn size_hint(&self) -> (r: (usize, Option<usize>))
        requires
            self.wf(),
        ensures
            r.0 == self.ids_view().len() + self.num_pending() + self.num_queued(),
            r.1 == Some(r.0),
    {
        let len = self.len();
        (len, Some(len))
    }
}

} // verus!
