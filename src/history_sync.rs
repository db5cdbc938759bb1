use vstd::multiset::Multiset;
use vstd::prelude::*;

use crate::messages::{
    BatchSetInfo, BlockHashType, BlockHashes, HistoryChunk, RequestBlockHashes,
    RequestBlockHashesFilter,
};
use crate::primitives::{bytes_eq, Blake2bHash};
use crate::sync_cluster::{epoch_at, epoch_number_of, ClusterPoll, Epoch, SyncCluster};
use crate::sync_queue::{Request, SyncQueuePeer};

verus! {

/// Most clusters kept before new epoch id lists are left waiting.
pub const MAX_CLUSTERS: usize = 100;

/// Most block hash requests in flight at a time.
pub const CONCURRENT_HASH_REQUESTS: usize = 10;

/// Most hashes asked of a peer at a time.
pub const MAX_REQUESTED_HASHES: u16 = 1000;

/// One peer's list of epoch hashes, the first of which is epoch `offset`.
pub struct EpochIds {
    pub ids: Vec<Blake2bHash>,
    pub offset: usize,
    pub sender: u64,
}

/// What one step of the history sync gave, with the position of the best
/// cluster it polled.
pub enum SyncPoll {
    /// The next epoch of that cluster, to push to the chain.
    Epoch { cluster: usize, epoch: Epoch },
    /// That cluster took in a result; poll again.
    Progress { cluster: usize },
    /// That cluster failed or finished and was dropped.
    Evicted { cluster: usize },
    /// That cluster waits for responses.
    Pending { cluster: usize },
    /// There is no cluster.
    Idle,
}

/// Cluster `k` is a most preferred one: none is preferred over it.
pub open spec fn is_best(cs: Seq<SyncCluster>, k: int) -> bool {
    0 <= k < cs.len() && forall|j: int| 0 <= j < cs.len() ==> !better(&#[trigger] cs[j], &cs[k])
}

/// The request for a peer's election block hashes after our election head.
pub fn request_epoch_ids(election_head_hash: Blake2bHash, request_identifier: u32) -> (r: RequestBlockHashes)
    ensures
        r.locators@ == seq![election_head_hash],
        r.max_blocks == MAX_REQUESTED_HASHES,
        r.filter == RequestBlockHashesFilter::ElectionOnly,
        r.request_identifier == request_identifier,
{
    let mut locators: Vec<Blake2bHash> = Vec::new();
    locators.push(election_head_hash);
    RequestBlockHashes {
        locators,
        max_blocks: MAX_REQUESTED_HASHES,
        filter: RequestBlockHashesFilter::ElectionOnly,
        request_identifier,
    }
}

/// A peer's answer as the list of epoch ids that follow our election head.
pub fn epoch_ids_from_response(response: &BlockHashes, election_head_block_number: u32, sender: u64) -> (r: EpochIds)
    ensures
        r.ids@ == response.hashes@.map_values(|p: (BlockHashType, Blake2bHash)| p.1),
        r.offset == epoch_at(election_head_block_number) + 1,
        r.sender == sender,
{
    let mut ids: Vec<Blake2bHash> = Vec::new();
    let mut i: usize = 0;
    while i < response.hashes.len()
        invariant
            i <= response.hashes@.len(),
            ids@ == response.hashes@.take(i as int).map_values(|p: (BlockHashType, Blake2bHash)| p.1),
        decreases response.hashes@.len() - i,
    {
        proof {
            assert(response.hashes@.take(i + 1).map_values(|p: (BlockHashType, Blake2bHash)| p.1)
                =~= response.hashes@.take(i as int).map_values(|p: (BlockHashType, Blake2bHash)| p.1).push(response.hashes@[i as int].1));
        }
        ids.push(response.hashes[i].1);
        i = i + 1;
    }
    proof {
        assert(response.hashes@.take(response.hashes@.len() as int) =~= response.hashes@);
    }
    EpochIds { ids, offset: epoch_number_of(election_head_block_number) as usize + 1, sender }
}

/// Groups peers into clusters by the epoch hashes they report, and feeds
/// the best cluster's epochs to the chain.
pub struct HistorySync {
    pub(crate) sync_clusters: Vec<SyncCluster>,
}

/// A cluster overlaps a list starting at `offset` if the list's first epoch
/// lies within the cluster's run.
pub open spec fn overlaps(c: &SyncCluster, offset: int) -> bool {
    c.offset() <= offset < c.offset() + c.ids_view().len()
}

/// Lexicographic order on byte strings.
pub open spec fn bytes_lt(a: Seq<u8>, b: Seq<u8>) -> bool
    decreases a.len(),
{
    if a.len() == 0 {
        b.len() > 0
    } else if b.len() == 0 {
        false
    } else if a[0] != b[0] {
        a[0] < b[0]
    } else {
        bytes_lt(a.skip(1), b.skip(1))
    }
}

/// Lexicographic order on lists of hashes.
pub open spec fn ids_lt(a: Seq<Blake2bHash>, b: Seq<Blake2bHash>) -> bool
    decreases a.len(),
{
    if a.len() == 0 {
        b.len() > 0
    } else if b.len() == 0 {
        false
    } else if a[0] != b[0] {
        bytes_lt(a[0]@, b[0]@)
    } else {
        ids_lt(a.skip(1), b.skip(1))
    }
}

/// Cluster `a` is preferred over cluster `b`: a lower offset; then more
/// peers; then more epoch ids; then the lexicographically smaller ids.
pub open spec fn better(a: &SyncCluster, b: &SyncCluster) -> bool {
    if a.offset() != b.offset() {
        a.offset() < b.offset()
    } else if a.peers_view().len() != b.peers_view().len() {
        a.peers_view().len() > b.peers_view().len()
    } else if a.ids_view().len() != b.ids_view().len() {
        a.ids_view().len() > b.ids_view().len()
    } else {
        ids_lt(a.ids_view(), b.ids_view())
    }
}

proof fn lemma_bytes_lt_transitive(a: Seq<u8>, b: Seq<u8>, c: Seq<u8>)
    requires
        bytes_lt(a, b),
        bytes_lt(b, c),
    ensures
        bytes_lt(a, c),
    decreases a.len(),
{
    if a.len() > 0 && b.len() > 0 && c.len() > 0 && a[0] == b[0] && b[0] == c[0] {
        lemma_bytes_lt_transitive(a.skip(1), b.skip(1), c.skip(1));
    }
}

proof fn lemma_bytes_lt_irreflexive(a: Seq<u8>)
    ensures
        !bytes_lt(a, a),
    decreases a.len(),
{
    if a.len() > 0 {
        lemma_bytes_lt_irreflexive(a.skip(1));
    }
}

proof fn lemma_ids_lt_transitive(a: Seq<Blake2bHash>, b: Seq<Blake2bHash>, c: Seq<Blake2bHash>)
    requires
        ids_lt(a, b),
        ids_lt(b, c),
    ensures
        ids_lt(a, c),
    decreases a.len(),
{
    if a.len() > 0 && b.len() > 0 && c.len() > 0 {
        if a[0] == b[0] && b[0] == c[0] {
            lemma_ids_lt_transitive(a.skip(1), b.skip(1), c.skip(1));
        } else if a[0] != b[0] && b[0] != c[0] {
            lemma_bytes_lt_transitive(a[0]@, b[0]@, c[0]@);
            if a[0] == c[0] {
                lemma_bytes_lt_irreflexive(a[0]@);
            }
        }
    }
}

/// No cluster is preferred over itself.
pub proof fn lemma_better_irreflexive(a: &SyncCluster)
    ensures
        !better(a, a),
{
    lemma_ids_lt_irreflexive(a.ids_view());
}

proof fn lemma_ids_lt_irreflexive(a: Seq<Blake2bHash>)
    ensures
        !ids_lt(a, a),
    decreases a.len(),
{
    if a.len() > 0 {
        lemma_ids_lt_irreflexive(a.skip(1));
    }
}

/// The preference between clusters is transitive.
pub proof fn lemma_better_transitive(a: &SyncCluster, b: &SyncCluster, c: &SyncCluster)
    requires
        better(a, b),
        better(b, c),
    ensures
        better(a, c),
{
    if a.offset() == b.offset() && b.offset() == c.offset() && a.peers_view().len()
        == b.peers_view().len() && b.peers_view().len() == c.peers_view().len()
        && a.ids_view().len() == b.ids_view().len() && b.ids_view().len() == c.ids_view().len() {
        lemma_ids_lt_transitive(a.ids_view(), b.ids_view(), c.ids_view());
    }
}

fn hash_lt(a: &Blake2bHash, b: &Blake2bHash) -> (r: bool)
    ensures
        r == bytes_lt(a@, b@),
{
    let mut i: usize = 0;
    proof {
        assert(a@.skip(0) =~= a@);
        assert(b@.skip(0) =~= b@);
    }
    while i < 32
        invariant
            i <= 32,
            a@.len() == 32,
            b@.len() == 32,
            bytes_lt(a@, b@) == bytes_lt(a@.skip(i as int), b@.skip(i as int)),
        decreases 32 - i,
    {
        proof {
            assert(a@.skip(i as int)[0] == a@[i as int]);
            assert(b@.skip(i as int)[0] == b@[i as int]);
            assert(a@.skip(i as int).skip(1) =~= a@.skip(i + 1));
            assert(b@.skip(i as int).skip(1) =~= b@.skip(i + 1));
        }
        if a[i] != b[i] {
            return a[i] < b[i];
        }
        i = i + 1;
    }
    false
}

fn ids_less(c: &SyncCluster, d: &SyncCluster) -> (r: bool)
    requires
        c.ids_view().len() == d.ids_view().len(),
    ensures
        r == ids_lt(c.ids_view(), d.ids_view()),
{
    let n = c.num_epoch_ids();
    let ghost a = c.ids_view();
    let ghost b = d.ids_view();
    let mut i: usize = 0;
    proof {
        assert(a.skip(0) =~= a);
        assert(b.skip(0) =~= b);
    }
    while i < n
        invariant
            i <= n,
            n == a.len(),
            n == b.len(),
            a == c.ids_view(),
            b == d.ids_view(),
            ids_lt(a, b) == ids_lt(a.skip(i as int), b.skip(i as int)),
        decreases n - i,
    {
        proof {
            assert(a.skip(i as int)[0] == a[i as int]);
            assert(b.skip(i as int)[0] == b[i as int]);
            assert(a.skip(i as int).skip(1) =~= a.skip(i + 1));
            assert(b.skip(i as int).skip(1) =~= b.skip(i + 1));
        }
        let x = c.epoch_id_at(i);
        let y = d.epoch_id_at(i);
        if !bytes_eq(&x, &y) {
            return hash_lt(&x, &y);
        }
        i = i + 1;
    }
    false
}

/// Whether cluster `a` is preferred over cluster `b`.
pub fn is_better(a: &SyncCluster, b: &SyncCluster) -> (r: bool)
    ensures
        r == better(a, b),
{
    if a.epoch_offset() != b.epoch_offset() {
        a.epoch_offset() < b.epoch_offset()
    } else if a.num_peers() != b.num_peers() {
        a.num_peers() > b.num_peers()
    } else if a.num_epoch_ids() != b.num_epoch_ids() {
        a.num_epoch_ids() > b.num_epoch_ids()
    } else {
        ids_less(a, b)
    }
}

/// How two clusters compare in the sync order, where the preferred cluster
/// comes last.
pub fn cmp(a: &SyncCluster, b: &SyncCluster) -> (r: core::cmp::Ordering)
    ensures
        r == core::cmp::Ordering::Less <==> better(b, a),
        r == core::cmp::Ordering::Greater <==> better(a, b),
{
    proof {
        if better(a, b) && better(b, a) {
            lemma_better_transitive(a, b, a);
            lemma_better_irreflexive(a);
        }
    }
    if is_better(b, a) {
        core::cmp::Ordering::Less
    } else if is_better(a, b) {
        core::cmp::Ordering::Greater
    } else {
        core::cmp::Ordering::Equal
    }
}

/// What a cluster is, as the clustering reads it.
pub struct ClusterView {
    pub offset: int,
    pub ids: Seq<Blake2bHash>,
    pub peers: Seq<SyncQueuePeer>,
}

pub open spec fn view_of(c: SyncCluster) -> ClusterView {
    ClusterView { offset: c.offset() as int, ids: c.ids_view(), peers: c.peers_view() }
}

/// Length of the common prefix of two lists.
pub open spec fn common_prefix(a: Seq<Blake2bHash>, b: Seq<Blake2bHash>) -> nat
    decreases a.len(),
{
    if a.len() == 0 || b.len() == 0 || a[0] != b[0] {
        0
    } else {
        1 + common_prefix(a.skip(1), b.skip(1))
    }
}

/// How many of the list's ids, from `from` on, cluster `c` matches, for a
/// list whose first epoch is `offset` (zero where they do not overlap).
pub open spec fn matched(c: ClusterView, offset: int, ids: Seq<Blake2bHash>, from: int) -> int {
    if c.offset <= offset < c.offset + c.ids.len() {
        let start = offset - c.offset;
        let len = vstd::math::min(c.ids.len() - start, ids.len() - from);
        common_prefix(c.ids.subrange(start, start + len), ids.subrange(from, from + len)) as int
    } else {
        0
    }
}

/// Whether the match with `c` stops short, so that `c` is cut.
pub open spec fn splits(c: ClusterView, offset: int, ids: Seq<Blake2bHash>, from: int) -> bool {
    let start = offset - c.offset;
    let len = vstd::math::min(c.ids.len() - start, ids.len() - from);
    matched(c, offset, ids, from) > 0 && matched(c, offset, ids, from) < len
}

/// Cluster `c` after the list was filed against it.
pub open spec fn after_match(c: ClusterView, offset: int, ids: Seq<Blake2bHash>, from: int, sender: u64) -> ClusterView {
    let m = matched(c, offset, ids, from);
    if m > 0 {
        ClusterView {
            offset: c.offset,
            ids: if splits(c, offset, ids, from) {
                c.ids.take(offset - c.offset + m)
            } else {
                c.ids
            },
            peers: c.peers.push(SyncQueuePeer { peer_id: sender }),
        }
    } else {
        c
    }
}

/// The part cut off `c`, which becomes a cluster of its own.
pub open spec fn cut_off(c: ClusterView, offset: int, ids: Seq<Blake2bHash>, from: int) -> ClusterView {
    let at = offset - c.offset + matched(c, offset, ids, from);
    ClusterView { offset: c.offset + at, ids: c.ids.skip(at), peers: c.peers }
}

/// Position in the list after filing it against the first `k` clusters.
pub open spec fn index_after(cs: Seq<ClusterView>, k: int, offset: int, ids: Seq<Blake2bHash>) -> int
    decreases k,
{
    if k <= 0 {
        0
    } else {
        let from = index_after(cs, k - 1, offset, ids);
        from + matched(cs[k - 1], offset, ids, from)
    }
}

/// The clusters cut off the first `k` clusters, in order.
pub open spec fn cut_offs(cs: Seq<ClusterView>, k: int, offset: int, ids: Seq<Blake2bHash>) -> Seq<ClusterView>
    decreases k,
{
    if k <= 0 {
        Seq::empty()
    } else {
        let from = index_after(cs, k - 1, offset, ids);
        let before = cut_offs(cs, k - 1, offset, ids);
        if splits(cs[k - 1], offset, ids, from) {
            before.push(cut_off(cs[k - 1], offset, ids, from))
        } else {
            before
        }
    }
}

/// The clusters after filing `epoch_ids`: each existing cluster as matched,
/// then the parts cut off, then a cluster of the sender alone for the ids
/// that no cluster matched.
pub open spec fn clustered(cs: Seq<ClusterView>, epoch_ids: EpochIds) -> Seq<ClusterView> {
    let offset = epoch_ids.offset as int;
    let ids = epoch_ids.ids@;
    let n = cs.len() as int;
    let rest = index_after(cs, n, offset, ids);
    let matched_all = Seq::new(
        cs.len(),
        |k: int| after_match(cs[k], offset, ids, index_after(cs, k, offset, ids), epoch_ids.sender),
    );
    let with_cuts = matched_all + cut_offs(cs, n, offset, ids);
    if rest < ids.len() {
        with_cuts.push(
            ClusterView {
                offset: offset + rest,
                ids: ids.skip(rest),
                peers: seq![SyncQueuePeer { peer_id: epoch_ids.sender }],
            },
        )
    } else {
        with_cuts
    }
}

proof fn lemma_common_prefix(a: Seq<Blake2bHash>, b: Seq<Blake2bHash>, r: int)
    requires
        a.len() == b.len(),
        0 <= r <= a.len(),
        forall|p: int| 0 <= p < r ==> #[trigger] a[p] == b[p],
        r < a.len() ==> a[r] != b[r],
    ensures
        common_prefix(a, b) == r,
    decreases r,
{
    if r > 0 {
        assert forall|p: int| 0 <= p < r - 1 implies #[trigger] a.skip(1)[p] == b.skip(1)[p] by {
            assert(a[p + 1] == b[p + 1]);
        }
        assert(a[0] == b[0]);
        lemma_common_prefix(a.skip(1), b.skip(1), r - 1);
    }
}

proof fn lemma_index_after_bound(cs: Seq<ClusterView>, k: int, offset: int, ids: Seq<Blake2bHash>)
    requires
        0 <= k <= cs.len(),
    ensures
        0 <= index_after(cs, k, offset, ids) <= ids.len(),
    decreases k,
{
    if k > 0 {
        lemma_index_after_bound(cs, k - 1, offset, ids);
        let from = index_after(cs, k - 1, offset, ids);
        let c = cs[k - 1];
        if c.offset <= offset < c.offset + c.ids.len() {
            let start = offset - c.offset;
            let len = vstd::math::min(c.ids.len() - start, ids.len() - from);
            lemma_common_prefix_bound(c.ids.subrange(start, start + len), ids.subrange(from, from + len));
        }
    }
}

proof fn lemma_common_prefix_bound(a: Seq<Blake2bHash>, b: Seq<Blake2bHash>)
    ensures
        common_prefix(a, b) <= a.len(),
        common_prefix(a, b) <= b.len(),
    decreases a.len(),
{
    if a.len() > 0 && b.len() > 0 && a[0] == b[0] {
        lemma_common_prefix_bound(a.skip(1), b.skip(1));
    }
}

/// Ordered by preference, the most preferred last: no cluster is preferred
/// over one that comes after it.
pub open spec fn sorted_by_preference(cs: Seq<SyncCluster>) -> bool {
    forall|i: int, j: int| 0 <= i < j < cs.len() ==> !better(&#[trigger] cs[i], &#[trigger] cs[j])
}

/// Sorts clusters by preference, the most preferred last.
fn sort_clusters(v: Vec<SyncCluster>) -> (r: Vec<SyncCluster>)
    requires
        forall|k: int| 0 <= k < v@.len() ==> (#[trigger] v@[k]).wf(),
    ensures
        r@.to_multiset() == v@.to_multiset(),
        sorted_by_preference(r@),
        forall|k: int| 0 <= k < r@.len() ==> (#[trigger] r@[k]).wf(),
{
    broadcast use vstd::seq_lib::to_multiset_build, vstd::seq_lib::to_multiset_insert, vstd::seq_lib::to_multiset_len, vstd::multiset::group_multiset_axioms, vstd::multiset::lemma_multiset_empty_len;

    let mut rest = v;
    let mut out: Vec<SyncCluster> = Vec::new();
    proof {
        vstd::seq_lib::to_multiset_len(out@);
        assert(out@.to_multiset().len() == 0);
        vstd::multiset::lemma_multiset_empty_len(out@.to_multiset());
        assert(out@.to_multiset().add(rest@.to_multiset()) =~= v@.to_multiset());
    }
    while rest.len() > 0
        invariant
            out@.to_multiset().add(rest@.to_multiset()) == v@.to_multiset(),
            sorted_by_preference(out@),
            forall|k: int| 0 <= k < out@.len() ==> (#[trigger] out@[k]).wf(),
            forall|k: int| 0 <= k < rest@.len() ==> (#[trigger] rest@[k]).wf(),
        decreases rest@.len(),
    {
        let ghost before_rest = rest@;
        let c = rest.pop().unwrap();
        proof {
            assert(before_rest =~= rest@.push(c));
            assert(before_rest[before_rest.len() - 1] == c);
        }
        let mut p: usize = 0;
        while p < out.len() && !is_better(&out[p], &c)
            invariant
                p <= out@.len(),
                forall|i: int| 0 <= i < p ==> !better(&#[trigger] out@[i], &c),
            decreases out@.len() - p,
        {
            p = p + 1;
        }
        let ghost before_out = out@;
        out.insert(p, c);
        proof {
            assert(out@ == before_out.insert(p as int, c));
            assert forall|i: int, j: int| 0 <= i < j < out@.len() implies !better(&#[trigger] out@[i], &#[trigger] out@[j]) by {
                if j == p {
                    assert(out@[i] == before_out[i]);
                } else if i == p {
                    assert(out@[j] == before_out[j - 1]);
                    if p < before_out.len() {
                        assert(better(&before_out[p as int], &c));
                        if better(&c, &before_out[j - 1]) {
                            if j - 1 == p {
                                lemma_better_transitive(&before_out[p as int], &c, &before_out[p as int]);
                                lemma_better_irreflexive(&before_out[p as int]);
                            } else {
                                lemma_better_transitive(&before_out[p as int], &c, &before_out[j - 1]);
                            }
                        }
                    }
                } else {
                    let i2 = if i < p { i } else { i - 1 };
                    let j2 = if j < p { j } else { j - 1 };
                    assert(out@[i] == before_out[i2]);
                    assert(out@[j] == before_out[j2]);
                }
            }
            assert forall|k: int| 0 <= k < out@.len() implies (#[trigger] out@[k]).wf() by {
                if k < p {
                    assert(out@[k] == before_out[k]);
                } else if k > p {
                    assert(out@[k] == before_out[k - 1]);
                }
            }
            vstd::seq_lib::to_multiset_build(rest@, c);
            vstd::seq_lib::to_multiset_insert(before_out, p as int, c);
            assert(out@.to_multiset() == before_out.to_multiset().insert(c));
            assert(before_rest.to_multiset() == rest@.to_multiset().insert(c));
            assert(out@.to_multiset().add(rest@.to_multiset()) =~= v@.to_multiset());
        }
    }
    proof {
        vstd::seq_lib::to_multiset_len(rest@);
        vstd::multiset::lemma_multiset_empty_len(rest@.to_multiset());
        assert(rest@.to_multiset() =~= Multiset::empty());
        assert(out@.to_multiset().add(rest@.to_multiset()) =~= out@.to_multiset());
    }
    out
}

impl HistorySync {
    pub closed spec fn clusters(&self) -> Seq<SyncCluster> {
        self.sync_clusters@
    }

    pub open spec fn cluster_views(&self) -> Seq<ClusterView> {
        self.clusters().map_values(|c: SyncCluster| view_of(c))
    }

    pub closed spec fn wf(&self) -> bool {
        forall|k: int| 0 <= k < self.sync_clusters@.len() ==> (#[trigger] self.sync_clusters@[k]).wf()
    }

    pub fn new() -> (r: Self)
        ensures
            r.wf(),
            r.clusters().len() == 0,
    {
        HistorySync { sync_clusters: Vec::new() }
    }

    pub fn num_clusters(&self) -> (r: usize)
        ensures
            r == self.clusters().len(),
    {
        self.sync_clusters.len()
    }

    /// Length of the common run of `c`'s ids from `start` and `ids` from
    /// `from`, over at most `len` positions.
    fn match_len(c: &SyncCluster, start: usize, ids: &Vec<Blake2bHash>, from: usize, len: usize) -> (r: usize)
        requires
            start + len <= c.ids_view().len(),
            from + len <= ids@.len(),
            start + len <= usize::MAX,
            from + len <= usize::MAX,
        ensures
            r <= len,
            forall|p: int| 0 <= p < r ==> #[trigger] c.ids_view()[start + p] == ids@[from + p],
            r < len ==> c.ids_view()[start + r] != ids@[from + r],
    {
        let mut p: usize = 0;
        while p < len
            invariant
                p <= len,
                start + len <= c.ids_view().len(),
                from + len <= ids@.len(),
                start + len <= usize::MAX,
                from + len <= usize::MAX,
                forall|q: int| 0 <= q < p ==> #[trigger] c.ids_view()[start + q] == ids@[from + q],
            decreases len - p,
        {
            let a = c.epoch_id_at(start + p);
            if !bytes_eq(&a, &ids[from + p]) {
                return p;
            }
            p = p + 1;
        }
        p
    }

    /// Files one peer's epoch ids into the clusters. For each cluster whose
    /// run holds the list's first epoch, the common run of hashes is found;
    /// where there is one, the cluster is cut to it (the rest becomes a new
    /// cluster with the same peers), the peer joins it, and the matched ids
    /// are consumed. The ids left over form a new cluster of the peer alone.
    /// Finally the clusters are sorted by preference, the most preferred last.
    pub fn cluster_epoch_ids(&mut self, epoch_ids: EpochIds)
        requires
            old(self).wf(),
            epoch_ids.offset + epoch_ids.ids@.len() <= usize::MAX,
        ensures
            final(self).wf(),
            exists|filed: Seq<SyncCluster>|
                filed.map_values(|c: SyncCluster| view_of(c)) == clustered(old(self).cluster_views(), epoch_ids)
                    && final(self).clusters().to_multiset() == #[trigger] filed.to_multiset(),
            sorted_by_preference(final(self).clusters()),
    {
        let offset = epoch_ids.offset;
        let ids = &epoch_ids.ids;
        let sender = epoch_ids.sender;
        let ghost cs = old(self).cluster_views();
        let n = self.sync_clusters.len();
        let mut id_index: usize = 0;
        let mut new_clusters: Vec<SyncCluster> = Vec::new();
        let mut i: usize = 0;
        while i < n
            invariant
                n == old(self).sync_clusters@.len(),
                n == self.sync_clusters@.len(),
                cs == old(self).cluster_views(),
                cs.len() == n,
                i <= n,
                id_index == index_after(cs, i as int, offset as int, ids@),
                id_index <= ids@.len(),
                offset + ids@.len() <= usize::MAX,
                self.wf(),
                forall|k: int| i <= k < n ==> #[trigger] self.sync_clusters@[k] == old(self).sync_clusters@[k],
                forall|k: int| 0 <= k < i ==> view_of(#[trigger] self.sync_clusters@[k]) == after_match(
                    cs[k],
                    offset as int,
                    ids@,
                    index_after(cs, k, offset as int, ids@),
                    sender,
                ),
                forall|k: int| 0 <= k < new_clusters@.len() ==> (#[trigger] new_clusters@[k]).wf(),
                new_clusters@.map_values(|c: SyncCluster| view_of(c)) == cut_offs(cs, i as int, offset as int, ids@),
            decreases n - i,
        {
            let ghost c = cs[i as int];
            let ghost from = id_index as int;
            proof {
                assert(c == view_of(old(self).sync_clusters@[i as int]));
                assert(self.sync_clusters@[i as int] == old(self).sync_clusters@[i as int]);
                lemma_index_after_bound(cs, i + 1, offset as int, ids@);
            }
            let c_offset = self.sync_clusters[i].epoch_offset();
            let c_len = self.sync_clusters[i].num_epoch_ids();
            proof {
                self.sync_clusters@[i as int].lemma_bounds();
            }
            let ghost new_before = new_clusters@;
            if c_offset <= offset && c_offset + c_len > offset {
                let start = offset - c_offset;
                let len = if c_len - start < ids.len() - id_index {
                    c_len - start
                } else {
                    ids.len() - id_index
                };
                let match_until = Self::match_len(&self.sync_clusters[i], start, ids, id_index, len);
                proof {
                    let a = c.ids.subrange(start as int, start + len);
                    let b = ids@.subrange(from, from + len);
                    assert forall|p: int| 0 <= p < match_until implies #[trigger] a[p] == b[p] by {
                        assert(c.ids[start + p] == ids@[from + p]);
                    }
                    lemma_common_prefix(a, b, match_until as int);
                    assert(matched(c, offset as int, ids@, from) == match_until);
                }
                if match_until > 0 {
                    let mut cluster = self.sync_clusters.remove(i);
                    if match_until < len {
                        let tail = cluster.split_off(start + match_until);
                        proof {
                            assert(view_of(tail) == cut_off(c, offset as int, ids@, from));
                        }
                        new_clusters.push(tail);
                        proof {
                            assert(new_clusters@.map_values(|c: SyncCluster| view_of(c)) =~= new_before.map_values(|c: SyncCluster| view_of(c)).push(view_of(tail)));
                        }
                    }
                    cluster.add_peer(sender);
                    proof {
                        assert(view_of(cluster) == after_match(c, offset as int, ids@, from, sender)) by {
                            assert(view_of(cluster).ids =~= after_match(c, offset as int, ids@, from, sender).ids);
                        }
                    }
                    self.sync_clusters.insert(i, cluster);
                    id_index = id_index + match_until;
                }
            }
            proof {
                assert(index_after(cs, i + 1, offset as int, ids@) == from + matched(c, offset as int, ids@, from));
                assert forall|k: int| 0 <= k < i + 1 implies view_of(#[trigger] self.sync_clusters@[k]) == after_match(
                    cs[k],
                    offset as int,
                    ids@,
                    index_after(cs, k, offset as int, ids@),
                    sender,
                ) by {
                    if k == i {
                        if matched(c, offset as int, ids@, from) == 0 {
                            assert(self.sync_clusters@[k] == old(self).sync_clusters@[k]);
                        }
                    }
                }
            }
            i = i + 1;
        }
        proof {
            lemma_index_after_bound(cs, n as int, offset as int, ids@);
        }
        if id_index < ids.len() {
            let mut rest: Vec<Blake2bHash> = Vec::new();
            let mut j: usize = id_index;
            while j < ids.len()
                invariant
                    id_index <= j <= ids@.len(),
                    rest@ == ids@.subrange(id_index as int, j as int),
                decreases ids@.len() - j,
            {
                proof {
                    assert(ids@.subrange(id_index as int, j + 1) =~= ids@.subrange(id_index as int, j as int).push(ids@[j as int]));
                }
                rest.push(ids[j]);
                j = j + 1;
            }
            let mut peers: Vec<SyncQueuePeer> = Vec::new();
            peers.push(SyncQueuePeer { peer_id: sender });
            let ghost new_before = new_clusters@;
            let fresh = SyncCluster::new(rest, offset + id_index, peers);
            proof {
                assert(rest@ =~= ids@.skip(id_index as int));
                assert(peers@ =~= seq![SyncQueuePeer { peer_id: sender }]);
            }
            new_clusters.push(fresh);
            proof {
                assert(new_clusters@.map_values(|c: SyncCluster| view_of(c)) =~= new_before.map_values(|c: SyncCluster| view_of(c)).push(view_of(fresh)));
            }
        }
        let ghost before = self.sync_clusters@;
        let ghost added = new_clusters@;
        self.sync_clusters.append(&mut new_clusters);
        proof {
            assert forall|k: int| 0 <= k < n implies #[trigger] self.sync_clusters@[k] == before[k] by {}
            assert(self.sync_clusters@ =~= before + added);
            let expect = clustered(cs, epoch_ids);
            assert(self.cluster_views() =~= expect);
        }
        let ghost filed = self.sync_clusters@;
        let mut all: Vec<SyncCluster> = Vec::new();
        all.append(&mut self.sync_clusters);
        proof {
            assert(all@ =~= filed);
        }
        self.sync_clusters = sort_clusters(all);
        proof {
            assert(filed.map_values(|c: SyncCluster| view_of(c)) == clustered(cs, epoch_ids));
        }
    }

    /// The position of a most preferred cluster: no cluster is preferred
    /// over it. `None` where there is no cluster.
    pub fn best_cluster(&self) -> (r: Option<usize>)
        ensures
            r is None <==> self.clusters().len() == 0,
            r matches Some(k) ==> k < self.clusters().len() && forall|j: int|
                0 <= j < self.clusters().len() ==> !better(
                    &#[trigger] self.clusters()[j],
                    &self.clusters()[k as int],
                ),
    {
        let n = self.sync_clusters.len();
        if n == 0 {
            return None;
        }
        let mut best: usize = 0;
        let mut j: usize = 1;
        proof {
            lemma_better_irreflexive(&self.sync_clusters@[0]);
        }
        while j < n
            invariant
                n == self.sync_clusters@.len(),
                1 <= j <= n,
                best < j,
                forall|l: int| 0 <= l < j ==> !better(&#[trigger] self.sync_clusters@[l], &self.sync_clusters@[best as int]),
            decreases n - j,
        {
            if is_better(&self.sync_clusters[j], &self.sync_clusters[best]) {
                proof {
                    let cj = self.sync_clusters@[j as int];
                    let cb = self.sync_clusters@[best as int];
                    assert forall|l: int| 0 <= l < j + 1 implies !better(&#[trigger] self.sync_clusters@[l], &cj) by {
                        if l == j {
                            lemma_better_irreflexive(&cj);
                        } else if better(&self.sync_clusters@[l], &cj) {
                            lemma_better_transitive(&self.sync_clusters@[l], &cj, &cb);
                        }
                    }
                }
                best = j;
            }
            j = j + 1;
        }
        Some(best)
    }

    /// Whether new epoch id lists are taken: fewer than `MAX_CLUSTERS`
    /// clusters exist.
    pub fn accepts_epoch_ids(&self) -> (r: bool)
        ensures
            r == (self.clusters().len() < MAX_CLUSTERS),
    {
        self.sync_clusters.len() < MAX_CLUSTERS
    }

    /// Drops the cluster at position `k`, after its epoch was refused.
    pub fn evict(&mut self, k: usize)
        requires
            old(self).wf(),
            k < old(self).clusters().len(),
        ensures
            final(self).wf(),
            final(self).clusters() == old(self).clusters().remove(k as int),
    {
        self.sync_clusters.remove(k);
    }

    /// One step: polls a most preferred cluster once. A cluster that
    /// fails or finishes is dropped, the others keep their order; otherwise
    /// the polled cluster takes its new state in place.
    pub fn poll(&mut self) -> (r: SyncPoll)
        requires
            old(self).wf(),
        ensures
            final(self).wf(),
            r is Idle <==> old(self).clusters().len() == 0,
            r is Idle ==> final(self).clusters() == old(self).clusters(),
            r matches SyncPoll::Evicted { cluster: k } ==> {
                &&& is_best(old(self).clusters(), k as int)
                &&& final(self).clusters() == old(self).clusters().remove(k as int)
                &&& exists|c: SyncCluster, res: ClusterPoll|
                    #[trigger] old(self).clusters()[k as int].stepped(&c, res) && (res is Failed
                        || res is Finished)
            },
            r matches SyncPoll::Epoch { cluster: k, epoch: e } ==> {
                &&& is_best(old(self).clusters(), k as int)
                &&& final(self).clusters() == old(self).clusters().update(k as int, final(self).clusters()[k as int])
                &&& old(self).clusters()[k as int].stepped(&final(self).clusters()[k as int], ClusterPoll::Epoch(e))
            },
            r matches SyncPoll::Progress { cluster: k } ==> {
                &&& is_best(old(self).clusters(), k as int)
                &&& final(self).clusters() == old(self).clusters().update(k as int, final(self).clusters()[k as int])
                &&& old(self).clusters()[k as int].stepped(&final(self).clusters()[k as int], ClusterPoll::Progress)
            },
            r matches SyncPoll::Pending { cluster: k } ==> {
                &&& is_best(old(self).clusters(), k as int)
                &&& final(self).clusters() == old(self).clusters()
                &&& old(self).clusters()[k as int].stepped(&final(self).clusters()[k as int], ClusterPoll::Pending)
            },
    {
        let k = match self.best_cluster() {
            Some(k) => k,
            None => return SyncPoll::Idle,
        };
        let ghost before = self.sync_clusters@;
        let mut cluster = self.sync_clusters.remove(k);
        let ghost c0 = cluster;
        proof {
            assert(before[k as int] == c0);
            assert forall|j: int| 0 <= j < self.sync_clusters@.len() implies (#[trigger] self.sync_clusters@[j]).wf() by {
                let j2 = if j < k { j } else { j + 1 };
                assert(self.sync_clusters@[j] == before[j2]);
            }
        }
        let res = cluster.poll_next();
        let ghost res_g = res;
        if matches!(res, ClusterPoll::Failed | ClusterPoll::Finished) {
            proof {
                assert(c0.stepped(&cluster, res_g));
            }
            return SyncPoll::Evicted { cluster: k };
        }
        self.sync_clusters.insert(k, cluster);
        proof {
            assert(self.sync_clusters@ =~= before.update(k as int, cluster));
            assert forall|j: int| 0 <= j < self.sync_clusters@.len() implies (#[trigger] self.sync_clusters@[j]).wf() by {
                if j != k {
                    assert(self.sync_clusters@[j] == before[j]);
                }
            }
        }
        match res {
            ClusterPoll::Epoch(epoch) => SyncPoll::Epoch { cluster: k, epoch },
            ClusterPoll::Progress => SyncPoll::Progress { cluster: k },
            _ => {
                proof {
                    assert(res_g is Pending);
                    assert(cluster == c0);
                    assert(self.sync_clusters@ =~= before);
                }
                SyncPoll::Pending { cluster: k }
            },
        }
    }

    /// Takes the chain's answer to the epoch that cluster `k` handed out:
    /// a cluster whose epoch was refused is dropped.
    pub fn on_push_result(&mut self, k: usize, accepted: bool)
        requires
            old(self).wf(),
            k < old(self).clusters().len(),
        ensures
            final(self).wf(),
            accepted ==> final(self).clusters() == old(self).clusters(),
            !accepted ==> final(self).clusters() == old(self).clusters().remove(k as int),
    {
        if !accepted {
            self.evict(k);
        }
    }

    /// The cluster at position `k`.
    pub fn cluster(&self, k: usize) -> (r: &SyncCluster)
        requires
            k < self.clusters().len(),
        ensures
            *r == self.clusters()[k as int],
    {
        &self.sync_clusters[k]
    }

    /// The requests that the cluster at position `k` is to send now.
    pub fn cluster_requests(&mut self, k: usize) -> (r: (Vec<Request<Blake2bHash>>, Vec<Request<(u32, usize)>>))
        requires
            old(self).wf(),
            k < old(self).clusters().len(),
        ensures
            final(self).wf(),
            final(self).clusters().len() == old(self).clusters().len(),
            forall|j: int| 0 <= j < old(self).clusters().len() && j != k ==> #[trigger] final(self).clusters()[j] == old(self).clusters()[j],
            old(self).clusters()[k as int].requested(&final(self).clusters()[k as int], r.0@, r.1@),
    {
        let mut c = self.sync_clusters.remove(k);
        let r = c.requests();
        self.sync_clusters.insert(k, c);
        proof {
            assert forall|j: int| 0 <= j < self.sync_clusters@.len() implies (#[trigger] self.sync_clusters@[j]).wf() by {
                if j < k {
                    assert(self.sync_clusters@[j] == old(self).sync_clusters@[j]);
                } else if j > k {
                    assert(self.sync_clusters@[j] == old(self).sync_clusters@[j]);
                }
            }
        }
        r
    }

    /// Hands the cluster at position `k` the response to its macro block
    /// request at `index`.
    pub fn on_epoch_response(&mut self, k: usize, index: usize, response: Option<BatchSetInfo>) -> (r: Option<Request<Blake2bHash>>)
        requires
            old(self).wf(),
            k < old(self).clusters().len(),
        ensures
            final(self).wf(),
            final(self).clusters().len() == old(self).clusters().len(),
            forall|j: int| 0 <= j < old(self).clusters().len() && j != k ==> #[trigger] final(self).clusters()[j] == old(self).clusters()[j],
            old(self).clusters()[k as int].epoch_responded(&final(self).clusters()[k as int], index, response, r),
    {
        let mut c = self.sync_clusters.remove(k);
        let r = c.on_epoch_response(index, response);
        self.sync_clusters.insert(k, c);
        proof {
            assert forall|j: int| 0 <= j < self.sync_clusters@.len() implies (#[trigger] self.sync_clusters@[j]).wf() by {
                if j < k {
                    assert(self.sync_clusters@[j] == old(self).sync_clusters@[j]);
                } else if j > k {
                    assert(self.sync_clusters@[j] == old(self).sync_clusters@[j]);
                }
            }
        }
        r
    }

    /// Hands the cluster at position `k` the response to its history chunk
    /// request at `index`.
    pub fn on_history_response(&mut self, k: usize, index: usize, response: Option<(u32, HistoryChunk)>) -> (r: Option<Request<(u32, usize)>>)
        requires
            old(self).wf(),
            k < old(self).clusters().len(),
        ensures
            final(self).wf(),
            final(self).clusters().len() == old(self).clusters().len(),
            forall|j: int| 0 <= j < old(self).clusters().len() && j != k ==> #[trigger] final(self).clusters()[j] == old(self).clusters()[j],
            old(self).clusters()[k as int].history_responded(&final(self).clusters()[k as int], index, response, r),
    {
        let mut c = self.sync_clusters.remove(k);
        let r = c.on_history_response(index, response);
        self.sync_clusters.insert(k, c);
        proof {
            assert forall|j: int| 0 <= j < self.sync_clusters@.len() implies (#[trigger] self.sync_clusters@[j]).wf() by {
                if j < k {
                    assert(self.sync_clusters@[j] == old(self).sync_clusters@[j]);
                } else if j > k {
                    assert(self.sync_clusters@[j] == old(self).sync_clusters@[j]);
                }
            }
        }
        r
    }
}

} // verus!
