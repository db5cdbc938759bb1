use albatross_sync::history_sync::{
    cmp, epoch_ids_from_response, is_better, request_epoch_ids, EpochIds, HistorySync, SyncPoll,
    MAX_CLUSTERS, MAX_REQUESTED_HASHES,
};
use albatross_sync::messages::{
    BatchSetInfo, BlockHashType, BlockHashes, ExtendedTransaction, HistoryChunk,
    HistoryTreeChunk, MacroBlock, RequestBlockHashesFilter,
};
use albatross_sync::sync_cluster::{ClusterPoll, SyncCluster, CHUNK_SIZE, EPOCH_LENGTH};
use albatross_sync::sync_queue::SyncQueuePeer;

fn h(n: u8) -> [u8; 32] {
    [n; 32]
}

fn peer_ids(c: &SyncCluster) -> Vec<u64> {
    c.peers().iter().map(|p| p.peer_id).collect()
}

fn macro_block(epoch: u32) -> MacroBlock {
    MacroBlock { block_number: epoch * EPOCH_LENGTH, hash: h(epoch as u8), is_election_block: true }
}

/// Polls until the cluster does more than take in a result.
fn settle(c: &mut SyncCluster) -> ClusterPoll {
    loop {
        match c.poll_next() {
            ClusterPoll::Progress => continue,
            other => return other,
        }
    }
}

/// Polls until the sync hands out an epoch, waits, or has no cluster.
fn settle_sync(sync: &mut HistorySync) -> SyncPoll {
    loop {
        match sync.poll() {
            SyncPoll::Progress { .. } | SyncPoll::Evicted { .. } => continue,
            other => return other,
        }
    }
}

fn chunk(n: usize, tag: u8) -> HistoryChunk {
    HistoryChunk {
        chunk: Some(HistoryTreeChunk {
            history: (0..n).map(|_| ExtendedTransaction { data: vec![tag] }).collect(),
        }),
        request_identifier: 0,
    }
}

#[test]
fn cluster_split_on_partial_match() {
    let mut sync = HistorySync::new();
    sync.cluster_epoch_ids(EpochIds { ids: vec![h(1), h(2), h(3), h(4)], offset: 10, sender: 1 });
    assert_eq!(sync.num_clusters(), 1);
    sync.cluster_epoch_ids(EpochIds { ids: vec![h(2), h(9), h(10)], offset: 11, sender: 2 });
    assert_eq!(sync.num_clusters(), 3);

    // Sorted by preference, the most preferred last.
    let c = sync.cluster(0);
    assert_eq!(c.epoch_offset(), 12);
    assert_eq!(c.epoch_ids(), vec![h(9), h(10)]);
    assert_eq!(peer_ids(c), vec![2]);

    let b = sync.cluster(1);
    assert_eq!(b.epoch_offset(), 12);
    assert_eq!(b.epoch_ids(), vec![h(3), h(4)]);
    assert_eq!(peer_ids(b), vec![1]);

    let a = sync.cluster(2);
    assert_eq!(a.epoch_offset(), 10);
    assert_eq!(a.epoch_ids(), vec![h(1), h(2)]);
    assert_eq!(peer_ids(a), vec![1, 2]);
    assert_eq!(sync.best_cluster(), Some(2));
}

#[test]
fn full_match_joins_cluster() {
    let mut sync = HistorySync::new();
    sync.cluster_epoch_ids(EpochIds { ids: vec![h(1), h(2)], offset: 5, sender: 1 });
    sync.cluster_epoch_ids(EpochIds { ids: vec![h(1), h(2)], offset: 5, sender: 2 });
    assert_eq!(sync.num_clusters(), 1);
    assert_eq!(peer_ids(sync.cluster(0)), vec![1, 2]);
    // No overlap: a cluster of its own.
    sync.cluster_epoch_ids(EpochIds { ids: vec![h(7)], offset: 20, sender: 3 });
    assert_eq!(sync.num_clusters(), 2);
    assert_eq!(sync.cluster(0).epoch_offset(), 20);
    assert_eq!(sync.cluster(1).epoch_offset(), 5);
}

#[test]
fn best_cluster_prefers_low_offset_then_peers() {
    let mut sync = HistorySync::new();
    sync.cluster_epoch_ids(EpochIds { ids: vec![h(3)], offset: 12, sender: 1 });
    sync.cluster_epoch_ids(EpochIds { ids: vec![h(1)], offset: 10, sender: 2 });
    assert_eq!(sync.best_cluster(), Some(1));
    let low = SyncCluster::new(vec![h(1)], 10, vec![SyncQueuePeer { peer_id: 1 }]);
    let many = SyncCluster::new(
        vec![h(2)],
        10,
        vec![SyncQueuePeer { peer_id: 1 }, SyncQueuePeer { peer_id: 2 }],
    );
    assert!(is_better(&many, &low));
    assert!(!is_better(&low, &many));
    assert_eq!(cmp(&low, &many), std::cmp::Ordering::Less);
    let longer = SyncCluster::new(vec![h(1), h(2)], 10, vec![SyncQueuePeer { peer_id: 1 }]);
    assert!(is_better(&longer, &low));
    let smaller_ids = SyncCluster::new(vec![h(0)], 10, vec![SyncQueuePeer { peer_id: 1 }]);
    assert!(is_better(&smaller_ids, &low));
    assert_eq!(cmp(&low, &low), std::cmp::Ordering::Equal);
    assert!(MAX_CLUSTERS > 0);
    assert!(sync.accepts_epoch_ids());
}

#[test]
fn completed_epoch_emitted_after_chunks_in_reverse() {
    let mut c = SyncCluster::new(vec![h(4)], 4, vec![SyncQueuePeer { peer_id: 1 }]);
    let (epochs, chunks) = c.requests();
    assert_eq!(epochs.len(), 1);
    assert!(chunks.is_empty());
    let info = BatchSetInfo {
        block: macro_block(4),
        history_len: (2 * CHUNK_SIZE) as u32,
        request_identifier: 0,
    };
    assert!(c.on_epoch_response(0, Some(info)).is_none());
    assert!(matches!(settle(&mut c), ClusterPoll::Pending));
    let (_, chunks) = c.requests();
    assert_eq!(chunks.len(), 2);
    assert_eq!(chunks[0].id, (4, 0));
    assert_eq!(chunks[1].id, (4, 1));
    assert!(c.on_history_response(1, Some((4, chunk(CHUNK_SIZE, 1)))).is_none());
    assert!(matches!(settle(&mut c), ClusterPoll::Pending));
    assert!(c.on_history_response(0, Some((4, chunk(CHUNK_SIZE, 0)))).is_none());
    match settle(&mut c) {
        ClusterPoll::Epoch(e) => {
            assert_eq!(e.history.len(), 2 * CHUNK_SIZE);
            assert_eq!(e.block.block_number, 4 * EPOCH_LENGTH);
            assert_eq!(e.history[0].data, vec![0]);
            assert_eq!(e.history[CHUNK_SIZE].data, vec![1]);
        }
        _ => panic!("epoch expected"),
    }
    assert!(matches!(settle(&mut c), ClusterPoll::Finished));
}

#[test]
fn epochs_come_out_in_order() {
    let mut c = SyncCluster::new(vec![h(7), h(8)], 7, vec![SyncQueuePeer { peer_id: 1 }]);
    let (epochs, _) = c.requests();
    assert_eq!(epochs.len(), 2);
    for (i, e) in [8u32, 7].iter().enumerate() {
        let idx = 1 - i;
        let info = BatchSetInfo { block: macro_block(*e), history_len: 0, request_identifier: 0 };
        c.on_epoch_response(idx, Some(info));
    }
    let mut seen = Vec::new();
    while let ClusterPoll::Epoch(e) = settle(&mut c) {
        seen.push(e.block.block_number / EPOCH_LENGTH);
    }
    assert_eq!(seen, vec![7, 8]);
}

#[test]
fn wrong_epoch_fails_cluster() {
    let mut c = SyncCluster::new(vec![h(7)], 7, vec![SyncQueuePeer { peer_id: 1 }]);
    c.requests();
    let info = BatchSetInfo { block: macro_block(9), history_len: 0, request_identifier: 0 };
    c.on_epoch_response(0, Some(info));
    assert!(matches!(settle(&mut c), ClusterPoll::Failed));
}

#[test]
fn split_off_keeps_peers() {
    let mut c = SyncCluster::new(vec![h(1), h(2), h(3)], 3, vec![SyncQueuePeer { peer_id: 4 }]);
    c.add_peer(5);
    let tail = c.split_off(1);
    assert_eq!(c.epoch_ids(), vec![h(1)]);
    assert_eq!(tail.epoch_ids(), vec![h(2), h(3)]);
    assert_eq!(tail.epoch_offset(), 4);
    assert_eq!(peer_ids(&tail), vec![4, 5]);
    assert_eq!(c.num_peers(), 2);
}

#[test]
fn history_sync_polls_best_and_drops_finished() {
    let mut sync = HistorySync::new();
    assert!(matches!(settle_sync(&mut sync), SyncPoll::Idle));
    sync.cluster_epoch_ids(EpochIds { ids: vec![h(3)], offset: 3, sender: 1 });
    let (epochs, _) = sync.cluster_requests(0);
    assert_eq!(epochs.len(), 1);
    assert!(matches!(settle_sync(&mut sync), SyncPoll::Pending { .. }));
    let info = BatchSetInfo { block: macro_block(3), history_len: 0, request_identifier: 0 };
    sync.on_epoch_response(0, 0, Some(info));
    match settle_sync(&mut sync) {
        SyncPoll::Epoch { cluster, epoch } => {
            assert_eq!(cluster, 0);
            assert_eq!(epoch.block.block_number, 3 * EPOCH_LENGTH);
        }
        _ => panic!("epoch expected"),
    }
    assert!(matches!(settle_sync(&mut sync), SyncPoll::Idle));
    assert_eq!(sync.num_clusters(), 0);
}

#[test]
fn failed_cluster_is_evicted() {
    let mut sync = HistorySync::new();
    sync.cluster_epoch_ids(EpochIds { ids: vec![h(3)], offset: 3, sender: 1 });
    sync.cluster_requests(0);
    sync.on_epoch_response(0, 0, None);
    assert!(matches!(settle_sync(&mut sync), SyncPoll::Idle));
    sync.cluster_epoch_ids(EpochIds { ids: vec![h(3)], offset: 3, sender: 1 });
    sync.evict(0);
    assert_eq!(sync.num_clusters(), 0);
}

#[test]
fn epoch_id_request_and_response() {
    let req = request_epoch_ids(h(1), 42);
    assert_eq!(req.locators, vec![h(1)]);
    assert_eq!(req.max_blocks, MAX_REQUESTED_HASHES);
    assert_eq!(req.filter, RequestBlockHashesFilter::ElectionOnly);
    assert_eq!(req.request_identifier, 42);
    let resp = BlockHashes {
        hashes: vec![(BlockHashType::Election, h(5)), (BlockHashType::Election, h(6))],
        request_identifier: 42,
    };
    let ids = epoch_ids_from_response(&resp, 2 * EPOCH_LENGTH, 9);
    assert_eq!(ids.ids, vec![h(5), h(6)]);
    assert_eq!(ids.offset, 3);
    assert_eq!(ids.sender, 9);
}

#[test]
fn history_sync_hands_out_consecutive_epochs() {
    let mut sync = HistorySync::new();
    sync.cluster_epoch_ids(EpochIds { ids: vec![h(5), h(6)], offset: 5, sender: 1 });
    let (epochs, _) = sync.cluster_requests(0);
    assert_eq!(epochs.len(), 2);
    for req in epochs.iter().rev() {
        let epoch = 5 + req.index as u32;
        let info = BatchSetInfo { block: macro_block(epoch), history_len: 0, request_identifier: 0 };
        assert!(sync.on_epoch_response(0, req.index, Some(info)).is_none());
    }
    let mut numbers = Vec::new();
    while let SyncPoll::Epoch { epoch, .. } = settle_sync(&mut sync) {
        numbers.push(epoch.block.block_number / EPOCH_LENGTH);
    }
    assert_eq!(numbers, vec![5, 6]);
    assert_eq!(sync.num_clusters(), 0);
}

#[test]
fn chunk_for_unknown_epoch_fails_cluster() {
    let mut c = SyncCluster::new(vec![h(4)], 4, vec![SyncQueuePeer { peer_id: 1 }]);
    c.requests();
    let info = BatchSetInfo { block: macro_block(4), history_len: CHUNK_SIZE as u32, request_identifier: 0 };
    c.on_epoch_response(0, Some(info));
    assert!(matches!(settle(&mut c), ClusterPoll::Pending));
    c.requests();
    assert!(c.on_history_response(0, Some((9, chunk(CHUNK_SIZE, 0)))).is_none());
    assert!(matches!(settle(&mut c), ClusterPoll::Failed));
}

#[test]
fn pending_epochs_stay_within_bound() {
    let ids: Vec<[u8; 32]> = (0..6).map(|i| h(10 + i)).collect();
    let mut c = SyncCluster::new(ids, 10, vec![SyncQueuePeer { peer_id: 1 }]);
    let (epochs, _) = c.requests();
    assert_eq!(epochs.len(), 5);
    for req in epochs.iter() {
        let info = BatchSetInfo {
            block: macro_block(10 + req.index as u32),
            history_len: CHUNK_SIZE as u32,
            request_identifier: 0,
        };
        c.on_epoch_response(req.index, Some(info));
    }
    assert!(matches!(settle(&mut c), ClusterPoll::Pending));
    // Five epochs wait for their history: no further macro block is asked for.
    let (epochs, chunks) = c.requests();
    assert!(epochs.is_empty());
    assert_eq!(chunks.len(), 5);
}

#[test]
fn refused_epoch_drops_cluster() {
    let mut sync = HistorySync::new();
    sync.cluster_epoch_ids(EpochIds { ids: vec![h(3), h(4)], offset: 3, sender: 1 });
    sync.cluster_requests(0);
    let info = BatchSetInfo { block: macro_block(3), history_len: 0, request_identifier: 0 };
    sync.on_epoch_response(0, 0, Some(info));
    match settle_sync(&mut sync) {
        SyncPoll::Epoch { cluster, .. } => sync.on_push_result(cluster, false),
        _ => panic!("epoch expected"),
    }
    assert_eq!(sync.num_clusters(), 0);
}
