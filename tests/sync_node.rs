use floresta_sync::policy::{classify, BAN_TIME, MAX_INFLIGHT_REQUESTS, NODE_UTREEXO};
use floresta_sync::{
    BlockHash, BlockValidationFailure, ConnectError, Dispatch, FailurePolicy, FailureReaction,
    IterationPlan, PeerMessage, Reissue, SyncNode,
};

fn hash_at(height: u32) -> BlockHash {
    BlockHash(height as u64, 7, 0, 0)
}

fn hashes(from: u32, to: u32) -> Vec<BlockHash> {
    (from..=to).map(hash_at).collect()
}

/// Drains the buffer the way the driver does against a chain whose header at
/// each height is `hash_at(height)` and which accepts every block; returns the
/// heights connected.
fn drain(node: &mut SyncNode<String>, validated: &mut u32, tip: u32) -> Vec<u32> {
    let mut connected = Vec::new();
    while *validated < tip {
        match node.take_buffered(hash_at(*validated + 1)) {
            Some((_peer, _block)) => {
                *validated += 1;
                connected.push(*validated);
            }
            None => break,
        }
    }
    connected
}

#[test]
fn batch_covers_next_hundred_heights() {
    let mut node: SyncNode<String> = SyncNode::new(100);
    let next = hashes(101, 300);
    let batch = node.schedule_batch(&next, 2, 1, 5);
    assert_eq!(batch, hashes(101, 200));
    assert_eq!(node.inflight_len(), 100);
    assert_eq!(node.last_block_requested(), 200);
    assert!(node.is_inflight(hash_at(150)));
    assert!(!node.is_inflight(hash_at(201)));
}

#[test]
fn batch_stops_at_chain_tip() {
    let mut node: SyncNode<String> = SyncNode::new(100);
    let next = hashes(101, 130);
    let batch = node.schedule_batch(&next, 2, 1, 5);
    assert_eq!(batch.len(), 30);
    assert_eq!(node.inflight_len(), 30);
    assert_eq!(node.last_block_requested(), 130);
}

#[test]
fn no_batch_without_peers() {
    let mut node: SyncNode<String> = SyncNode::new(100);
    let batch = node.schedule_batch(&hashes(101, 300), 0, 1, 5);
    assert!(batch.is_empty());
    assert_eq!(node.inflight_len(), 0);
    assert_eq!(node.last_block_requested(), 100);
}

#[test]
fn batch_fills_only_spare_capacity() {
    let mut node: SyncNode<String> = SyncNode::new(0);
    let first = node.schedule_batch(&hashes(1, 60), 1, 1, 0);
    assert_eq!(first.len(), 60);
    let second = node.schedule_batch(&hashes(61, 300), 1, 2, 1);
    assert_eq!(second, hashes(61, 100));
    assert_eq!(node.inflight_len(), MAX_INFLIGHT_REQUESTS);
    let third = node.schedule_batch(&hashes(101, 300), 1, 2, 2);
    assert!(third.is_empty());
    assert_eq!(node.last_block_requested(), 100);
}

#[test]
fn record_request_refused_when_full() {
    let mut node: SyncNode<String> = SyncNode::new(0);
    node.schedule_batch(&hashes(1, 100), 1, 1, 0);
    assert!(!node.record_request(hash_at(500), 3, 9));
    assert!(!node.is_inflight(hash_at(500)));
    // a request already tracked is replaced, which needs no room
    assert!(node.record_request(hash_at(7), 3, 9));
    assert_eq!(node.inflight_len(), 100);
}

#[test]
fn out_of_order_blocks_connect_in_height_order() {
    let mut node: SyncNode<String> = SyncNode::new(100);
    let mut validated: u32 = 100;
    node.schedule_batch(&hashes(101, 103), 1, 1, 0);

    node.receive_block(1, hash_at(101), "b101".to_string());
    assert_eq!(drain(&mut node, &mut validated, 103), vec![101]);

    node.receive_block(1, hash_at(103), "b103".to_string());
    assert_eq!(drain(&mut node, &mut validated, 103), Vec::<u32>::new());
    assert!(node.is_buffered(hash_at(103)));

    node.receive_block(2, hash_at(102), "b102".to_string());
    assert_eq!(drain(&mut node, &mut validated, 103), vec![102, 103]);
    assert_eq!(node.buffered_len(), 0);
    assert_eq!(node.inflight_len(), 0);
}

#[test]
fn far_ahead_block_waits_for_predecessors() {
    let mut node: SyncNode<String> = SyncNode::new(100);
    let mut validated: u32 = 100;
    node.receive_block(4, hash_at(150), "b150".to_string());
    assert!(drain(&mut node, &mut validated, 200).is_empty());
    assert!(node.is_buffered(hash_at(150)));
    assert_eq!(validated, 100);
}

#[test]
fn take_buffered_gives_peer_and_payload() {
    let mut node: SyncNode<String> = SyncNode::new(0);
    node.receive_block(9, hash_at(1), "payload".to_string());
    assert_eq!(node.take_buffered(hash_at(1)), Some((9, "payload".to_string())));
    assert_eq!(node.take_buffered(hash_at(1)), None);
}

#[test]
fn redelivery_replaces_buffered_copy() {
    let mut node: SyncNode<String> = SyncNode::new(0);
    node.receive_block(1, hash_at(5), "first".to_string());
    node.receive_block(2, hash_at(5), "second".to_string());
    assert_eq!(node.buffered_len(), 1);
    assert_eq!(node.take_buffered(hash_at(5)), Some((2, "second".to_string())));
}

#[test]
fn stale_delivery_is_still_buffered() {
    let mut node: SyncNode<String> = SyncNode::new(0);
    node.receive_block(1, hash_at(3), "b3".to_string());
    assert!(node.is_buffered(hash_at(3)));
    assert_eq!(node.inflight_len(), 0);
}

#[test]
fn timed_out_request_is_reissued_once() {
    let mut node: SyncNode<String> = SyncNode::new(0);
    node.schedule_batch(&hashes(1, 1), 1, 4, 100);
    node.schedule_batch(&hashes(2, 2), 1, 5, 130);
    assert!(node.handle_timeout(160).is_empty());
    assert_eq!(node.inflight_len(), 2);
    let reissues = node.handle_timeout(161);
    assert_eq!(reissues, vec![Reissue { peer: 4, ban_increase: 1, hash: hash_at(1) }]);
    assert!(!node.is_inflight(hash_at(1)));
    assert!(node.is_inflight(hash_at(2)));
    assert_eq!(node.inflight_len(), 1);
}

#[test]
fn clock_going_back_times_nothing_out() {
    let mut node: SyncNode<String> = SyncNode::new(0);
    node.schedule_batch(&hashes(1, 3), 1, 4, 1000);
    assert!(node.handle_timeout(10).is_empty());
    assert_eq!(node.inflight_len(), 3);
}

#[test]
fn consensus_failure_invalidates_and_bans() {
    let mut node: SyncNode<String> = SyncNode::new(100);
    node.receive_block(3, hash_at(101), "bad".to_string());
    assert!(node.take_buffered(hash_at(101)).is_some());
    let r = node.reject_block(3, hash_at(101), ConnectError::Validation(BlockValidationFailure::BadMerkleRoot));
    assert_eq!(r, FailureReaction::Punish { peer: 3, ban_for: BAN_TIME, invalidate: Some(hash_at(101)) });
    assert!(!node.is_buffered(hash_at(101)));
    assert!(!node.is_inflight(hash_at(101)));
}

#[test]
fn proof_failure_bans_without_invalidating() {
    let mut node: SyncNode<String> = SyncNode::new(100);
    node.schedule_batch(&hashes(101, 101), 1, 3, 0);
    node.receive_block(3, hash_at(101), "unproven".to_string());
    assert!(node.take_buffered(hash_at(101)).is_some());
    let r = node.reject_block(3, hash_at(101), ConnectError::Validation(BlockValidationFailure::InvalidProof));
    assert_eq!(r, FailureReaction::Punish { peer: 3, ban_for: BAN_TIME, invalidate: None });
    assert!(!node.is_buffered(hash_at(101)));
    assert!(!node.is_inflight(hash_at(101)));
}

#[test]
fn interface_failure_is_fatal_only() {
    let mut node: SyncNode<String> = SyncNode::new(100);
    let r = node.reject_block(3, hash_at(101), ConnectError::Interface);
    assert_eq!(r, FailureReaction::Fatal);
}

#[test]
fn every_consensus_failure_invalidates() {
    let consensus = [
        BlockValidationFailure::InvalidTx,
        BlockValidationFailure::NotEnoughPow,
        BlockValidationFailure::BadMerkleRoot,
        BlockValidationFailure::BadWitnessCommitment,
        BlockValidationFailure::NotEnoughMoney,
        BlockValidationFailure::FirstTxIsNotCoinbase,
        BlockValidationFailure::BadCoinbaseOutValue,
        BlockValidationFailure::EmptyBlock,
        BlockValidationFailure::BlockExtendsAnOrphanChain,
        BlockValidationFailure::BadBip34,
        BlockValidationFailure::CoinbaseNotMatured,
    ];
    for f in consensus {
        assert_eq!(classify(f), FailurePolicy::InvalidateAndBan);
    }
    assert_eq!(classify(BlockValidationFailure::InvalidProof), FailurePolicy::BanOnly);
}

#[test]
fn iteration_stops_on_shutdown_or_end_of_download() {
    let node: SyncNode<String> = SyncNode::new(0);
    assert_eq!(node.plan_iteration(true, true, 100, 0, 1), IterationPlan::Stop);
    assert_eq!(node.plan_iteration(false, false, 100, 0, 1), IterationPlan::Stop);
}

#[test]
fn iteration_connects_and_schedules_as_allowed() {
    let mut node: SyncNode<String> = SyncNode::new(0);
    assert_eq!(
        node.plan_iteration(false, true, 10, 3, 1),
        IterationPlan::Proceed { open_connection: true, schedule: true }
    );
    assert_eq!(
        node.plan_iteration(false, true, 9, 3, 1),
        IterationPlan::Proceed { open_connection: false, schedule: true }
    );
    assert_eq!(
        node.plan_iteration(false, true, 60, 4, 0),
        IterationPlan::Proceed { open_connection: false, schedule: false }
    );
    node.schedule_batch(&hashes(1, 200), 1, 1, 0);
    assert_eq!(
        node.plan_iteration(false, true, 60, 1, 2),
        IterationPlan::Proceed { open_connection: true, schedule: false }
    );
}

#[test]
fn messages_are_routed() {
    let mut node: SyncNode<String> = SyncNode::new(0);
    node.schedule_batch(&hashes(1, 1), 1, 6, 0);
    assert_eq!(node.handle_message(6, PeerMessage::Block(hash_at(1), "b1".to_string())), Dispatch::Drain);
    assert!(node.is_buffered(hash_at(1)));
    assert!(!node.is_inflight(hash_at(1)));
    assert_eq!(node.handle_message(6, PeerMessage::Ready(NODE_UTREEXO)), Dispatch::PromotePeer(6, NODE_UTREEXO));
    assert_eq!(node.handle_message(6, PeerMessage::Disconnected(2)), Dispatch::RemovePeer(6, 2));
    assert_eq!(node.handle_message(6, PeerMessage::Other), Dispatch::Ignore);
    assert_eq!(node.buffered_len(), 1);
}

#[test]
fn sync_node_needs_utreexo_peers() {
    let node: SyncNode<String> = SyncNode::new(0);
    assert_eq!(node.get_required_services(0), 1 << 24);
    assert_eq!(node.get_required_services(3), 1 << 24);
}

#[test]
fn reversed_arrivals_connect_once_complete() {
    let mut node: SyncNode<String> = SyncNode::new(100);
    let mut validated: u32 = 100;
    node.schedule_batch(&hashes(101, 110), 1, 1, 0);
    let mut connected = Vec::new();
    for h in (101..=110).rev() {
        node.receive_block(1, hash_at(h), format!("b{h}"));
        connected.extend(drain(&mut node, &mut validated, 110));
        if h > 101 {
            assert!(connected.is_empty());
        }
    }
    assert_eq!(connected, (101..=110).collect::<Vec<u32>>());
    assert_eq!(validated, 110);
    assert_eq!(node.buffered_len(), 0);
    assert_eq!(node.inflight_len(), 0);
}
