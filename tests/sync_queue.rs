use albatross_sync::sync_queue::{SyncQueue, SyncQueuePeer};

fn peers(ids: &[u64]) -> Vec<SyncQueuePeer> {
    ids.iter().map(|&peer_id| SyncQueuePeer { peer_id }).collect()
}

fn drain(q: &mut SyncQueue<u32, String>) -> Vec<Result<String, u32>> {
    let mut out = Vec::new();
    while let Some(r) = q.next_output() {
        out.push(r);
    }
    out
}

#[test]
fn requests_rotate_over_peers() {
    let mut q: SyncQueue<u32, String> = SyncQueue::new(vec![10, 11, 12], peers(&[1, 2]), 3);
    let reqs = q.try_push_futures();
    assert_eq!(reqs.len(), 3);
    assert_eq!((reqs[0].id, reqs[0].index, reqs[0].peer_id), (10, 0, 1));
    assert_eq!((reqs[1].id, reqs[1].index, reqs[1].peer_id), (11, 1, 2));
    assert_eq!((reqs[2].id, reqs[2].index, reqs[2].peer_id), (12, 2, 1));
    assert_eq!(q.num_items_started(), 3);
    assert_eq!(q.len(), 3);
}

#[test]
fn ordered_emission_with_retry() {
    // ids A, B, C; B fails on its first peer and succeeds on the other.
    let mut q: SyncQueue<u32, String> = SyncQueue::new(vec![1, 2, 3], peers(&[1, 2]), 3);
    let reqs = q.try_push_futures();
    assert_eq!(reqs.len(), 3);
    // C answers first, then A; B fails on peer 2.
    assert!(q.on_response(2, Some("C".to_string())).is_none());
    assert!(q.on_response(0, Some("A".to_string())).is_none());
    let retry = q.on_response(1, None).expect("B is sent again");
    assert_eq!((retry.id, retry.index, retry.peer_id), (2, 1, 1));
    assert_eq!(drain(&mut q), vec![Ok("A".to_string())]);
    assert!(q.on_response(1, Some("B".to_string())).is_none());
    assert_eq!(drain(&mut q), vec![Ok("B".to_string()), Ok("C".to_string())]);
    assert_eq!(q.num_items_finished(), 3);
    assert!(q.is_finished());
}

#[test]
fn peer_exhaustion_gives_error_in_place() {
    let mut q: SyncQueue<u32, String> = SyncQueue::new(vec![1, 2, 3], peers(&[1, 2]), 3);
    q.try_push_futures();
    assert!(q.on_response(0, Some("A".to_string())).is_none());
    assert!(q.on_response(2, Some("C".to_string())).is_none());
    let retry = q.on_response(1, None).expect("second peer is tried");
    assert_eq!(retry.peer_id, 1);
    assert!(q.on_response(1, None).is_none());
    assert_eq!(
        drain(&mut q),
        vec![Ok("A".to_string()), Err(2), Ok("C".to_string())]
    );
    assert!(q.is_finished());
}

#[test]
fn window_bounds_requests() {
    let mut q: SyncQueue<u32, String> = SyncQueue::new((0..10).collect(), peers(&[7]), 4);
    assert_eq!(q.try_push_futures().len(), 4);
    // Nothing more while four are in flight or waiting.
    assert_eq!(q.try_push_futures().len(), 0);
    q.on_response(1, Some("b".to_string()));
    // Index 1 waits for index 0: still four in the window.
    assert_eq!(q.try_push_futures().len(), 0);
    q.on_response(0, Some("a".to_string()));
    assert_eq!(drain(&mut q).len(), 2);
    assert_eq!(q.try_push_futures().len(), 2);
    assert_eq!(q.num_items_started(), 6);
    assert_eq!(q.num_items_finished(), 2);
    assert!(q.num_items_finished() <= q.num_items_started());
    assert_eq!(q.len(), 8);
}

#[test]
fn no_peers_no_requests() {
    let mut q: SyncQueue<u32, String> = SyncQueue::new(vec![1, 2], Vec::new(), 3);
    assert!(q.try_push_futures().is_empty());
    assert!(q.is_finished());
    q.add_peer(5);
    assert!(q.has_peer(5));
    assert!(!q.is_finished());
    let reqs = q.try_push_futures();
    assert_eq!(reqs.len(), 2);
    assert!(reqs.iter().all(|r| r.peer_id == 5));
}

#[test]
fn remove_peer_and_truncate_ids() {
    let mut q: SyncQueue<u32, String> = SyncQueue::new(vec![1, 2, 3, 4, 5], peers(&[1, 2, 1]), 2);
    q.remove_peer(1);
    assert_eq!(q.num_peers(), 1);
    assert!(!q.has_peer(1));
    assert_eq!(q.try_push_futures().len(), 2);
    // Keep the first four ids counted from the start: two are started.
    q.truncate_ids(4);
    assert_eq!(q.len(), 4);
    q.truncate_ids(1);
    assert_eq!(q.len(), 2);
    q.add_ids(vec![9]);
    assert_eq!(q.len(), 3);
    assert!(!q.is_empty());
}

#[test]
fn stale_response_changes_nothing() {
    let mut q: SyncQueue<u32, String> = SyncQueue::new(vec![1], peers(&[1]), 1);
    q.try_push_futures();
    assert!(q.on_response(5, Some("x".to_string())).is_none());
    assert!(q.next_output().is_none());
    assert_eq!(q.len(), 1);
}

#[test]
fn size_hint_is_exact() {
    let mut q: SyncQueue<u32, String> = SyncQueue::new(vec![1, 2, 3], peers(&[1]), 2);
    q.try_push_futures();
    assert_eq!(q.size_hint(), (3, Some(3)));
}
