use bittorrent::bitset::PieceSet;
use bittorrent::message::Block;
use bittorrent::scheduler::{PeerPieceResponse, Scheduler};
use bittorrent::sizes::Sizes;

/// The layout of the test torrent: pieces of 32 KiB, 174357 bytes in all.
fn test_sizes(block_size: usize) -> Sizes {
    Sizes::new(32 * 1024, 174357, block_size)
}

fn test_scheduler_with(block_size: usize, max_requests: usize, has_pieces: &[usize]) -> Scheduler {
    let has_pieces = PieceSet::from_pieces(has_pieces);
    Scheduler::new(test_sizes(block_size), max_requests, &has_pieces)
}

fn test_scheduler(has_pieces: &[usize]) -> Scheduler {
    test_scheduler_with(8, 1, has_pieces)
}

#[test]
fn mod_peer_unchoked_but_has_no_pieces() {
    let mut scheduler = test_scheduler(&[]);
    let addr = 1;

    assert!(scheduler.peer_unchoked(addr).is_empty());
}

#[test]
fn mod_peer_unchoked_but_client_already_has_that_piece() {
    let mut scheduler = test_scheduler(&[0]);
    let addr = 1;

    assert_eq!(scheduler.peer_has_piece(addr, 0), PeerPieceResponse::NoAction);
    assert!(scheduler.peer_unchoked(addr).is_empty());
}

#[test]
fn mod_assign_a_block_to_request_from_peer() {
    let mut scheduler = test_scheduler(&[]);
    let addr = 1;

    assert_eq!(scheduler.peer_has_piece(addr, 0), PeerPieceResponse::ExpressInterest);
    assert_eq!(scheduler.peer_unchoked(addr), vec![Block::new(0, 0, 8)]);
}

#[test]
fn mod_peer_unchoked_before_notifying_on_completed_piece() {
    let mut scheduler = test_scheduler(&[]);
    let addr = 1;

    assert!(scheduler.peer_unchoked(addr).is_empty());
    assert_eq!(
        scheduler.peer_has_piece(addr, 0),
        PeerPieceResponse::ExpressInterestAndRequest(vec![Block::new(0, 0, 8)])
    );
}

#[test]
fn show_interest_only_once() {
    let mut scheduler = test_scheduler_with(16384, 3, &[]);
    let addr = 1;

    assert!(scheduler.peer_unchoked(addr).is_empty());
    assert_eq!(
        scheduler.peer_has_piece(addr, 0),
        PeerPieceResponse::ExpressInterestAndRequest(vec![Block::new(0, 0, 16384), Block::new(0, 16384, 16384)])
    );
    assert_eq!(
        scheduler.peer_has_piece(addr, 1),
        PeerPieceResponse::RequestBlocks(vec![Block::new(1, 0, 16384)])
    );
}

#[test]
fn mod_distribute_same_piece_between_two_peers() {
    let mut scheduler = test_scheduler(&[]);

    let addr1 = 1;
    assert_eq!(scheduler.peer_has_piece(addr1, 0), PeerPieceResponse::ExpressInterest);

    let addr2 = 2;
    assert_eq!(scheduler.peer_has_piece(addr2, 0), PeerPieceResponse::ExpressInterest);

    assert_eq!(scheduler.peer_unchoked(addr1), vec![Block::new(0, 0, 8)]);
    assert_eq!(scheduler.peer_unchoked(addr2), vec![Block::new(0, 8, 8)]);
}

#[test]
fn mod_select_rarest_pieces_first() {
    let mut scheduler = test_scheduler(&[]);

    let addr1 = 1;
    assert_eq!(scheduler.peer_has_piece(addr1, 0), PeerPieceResponse::ExpressInterest);

    let addr2 = 2;
    assert_eq!(scheduler.peer_has_piece(addr2, 0), PeerPieceResponse::ExpressInterest);
    assert_eq!(scheduler.peer_has_piece(addr2, 1), PeerPieceResponse::NoAction);

    assert_eq!(scheduler.peer_unchoked(addr2), vec![Block::new(1, 0, 8)]);
    assert_eq!(scheduler.peer_unchoked(addr1), vec![Block::new(0, 0, 8)]);
}

#[test]
fn mod_prioritize_pieces_that_already_started_downloading() {
    let mut scheduler = test_scheduler(&[]);

    let addr1 = 1;
    assert_eq!(scheduler.peer_has_piece(addr1, 0), PeerPieceResponse::ExpressInterest);

    let addr2 = 2;
    assert_eq!(scheduler.peer_has_piece(addr2, 0), PeerPieceResponse::ExpressInterest);
    assert_eq!(scheduler.peer_has_piece(addr2, 1), PeerPieceResponse::NoAction);

    assert_eq!(scheduler.peer_unchoked(addr1), vec![Block::new(0, 0, 8)]);
    assert_eq!(scheduler.peer_unchoked(addr2), vec![Block::new(0, 8, 8)]);
}

#[test]
fn mod_continue_to_next_block_after_previous_block_completed_downloading() {
    let mut scheduler = test_scheduler(&[]);

    let addr = 1;
    let block1 = Block::new(0, 0, 8);
    let block2 = Block::new(0, 8, 8);

    assert_eq!(scheduler.peer_has_piece(addr, 0), PeerPieceResponse::ExpressInterest);
    assert_eq!(scheduler.peer_unchoked(addr), vec![block1]);

    assert_eq!(scheduler.block_downloaded(addr, &block1), vec![block2]);
}

#[test]
fn mod_release_abandoned_block() {
    let mut scheduler = test_scheduler(&[]);
    let addr = 1;
    let block = Block::new(0, 0, 8);

    assert_eq!(scheduler.peer_has_piece(addr, 0), PeerPieceResponse::ExpressInterest);
    assert_eq!(scheduler.peer_unchoked(addr), vec![block]);

    assert_eq!(scheduler.release(addr, block), vec![block]);
}

#[test]
fn mod_release_block_after_peer_disconnected() {
    let mut scheduler = test_scheduler(&[]);
    let block = Block::new(0, 0, 8);

    let addr1 = 1;
    assert_eq!(scheduler.peer_has_piece(addr1, 0), PeerPieceResponse::ExpressInterest);
    assert_eq!(scheduler.peer_unchoked(addr1), vec![block]);

    scheduler.peer_disconnected(addr1);
    assert!(scheduler.release(addr1, block).is_empty());

    let addr2 = 2;
    assert_eq!(scheduler.peer_has_piece(addr2, 0), PeerPieceResponse::ExpressInterest);
    assert_eq!(scheduler.peer_unchoked(addr2), vec![block]);
}

#[test]
fn mod_assign_abandoned_block_to_other_peer_if_needed() {
    let mut scheduler = test_scheduler(&[]);

    let block = Block::new(0, 0, 8);
    let addr1 = 1;
    let addr2 = 2;

    assert_eq!(scheduler.peer_has_piece(addr1, 0), PeerPieceResponse::ExpressInterest);
    assert_eq!(scheduler.peer_unchoked(addr1), vec![block]);

    scheduler.peer_choked(addr1);

    assert_eq!(scheduler.peer_has_piece(addr2, 0), PeerPieceResponse::ExpressInterest);
    assert_eq!(scheduler.peer_unchoked(addr2), vec![block]);
}

#[test]
fn mod_do_not_reassign_downloaded_block() {
    let mut scheduler = test_scheduler(&[]);

    let addr1 = 1;
    let addr2 = 2;
    let block1 = Block::new(0, 0, 8);
    let block2 = Block::new(0, 8, 8);

    assert_eq!(scheduler.peer_has_piece(addr1, 0), PeerPieceResponse::ExpressInterest);
    assert_eq!(scheduler.peer_unchoked(addr1), vec![block1]);

    assert_eq!(scheduler.block_downloaded(addr1, &block1), vec![block2]);
    scheduler.peer_choked(addr1);

    assert_eq!(scheduler.peer_has_piece(addr2, 0), PeerPieceResponse::ExpressInterest);
    assert_eq!(scheduler.peer_unchoked(addr2), vec![block2]);
}

#[test]
fn mod_find_all_peers_that_are_no_longer_interesting() {
    let mut scheduler = test_scheduler_with(16384, 10, &[]);

    let addr1 = 1;
    assert_eq!(scheduler.peer_has_piece(addr1, 0), PeerPieceResponse::ExpressInterest);
    assert_eq!(scheduler.peer_has_piece(addr1, 1), PeerPieceResponse::NoAction);

    let addr2 = 2;
    assert_eq!(scheduler.peer_has_piece(addr2, 0), PeerPieceResponse::ExpressInterest);

    for block in scheduler.peer_unchoked(addr1) {
        scheduler.block_downloaded(addr1, &block);
    }

    let not_interesting = scheduler.client_has_piece(0);
    assert_eq!(not_interesting.len(), 1);
    assert!(not_interesting.contains(&addr2));
}

#[test]
fn peer_disconnection_releases_blocks() {
    let mut scheduler = test_scheduler(&[]);
    let addr = 1;

    assert_eq!(scheduler.peer_has_piece(addr, 0), PeerPieceResponse::ExpressInterest);
    let blocks = scheduler.peer_unchoked(addr);
    assert_eq!(blocks.len(), 1);

    scheduler.peer_disconnected(addr);

    let addr2 = 2;
    assert_eq!(scheduler.peer_has_piece(addr2, 0), PeerPieceResponse::ExpressInterest);
    assert_eq!(scheduler.peer_unchoked(addr2), blocks);
}

#[test]
fn multiple_peers_get_different_blocks() {
    let mut scheduler = test_scheduler_with(8, 2, &[]);

    let addr1 = 1;
    let addr2 = 2;

    assert_eq!(scheduler.peer_has_piece(addr1, 0), PeerPieceResponse::ExpressInterest);
    let blocks1 = scheduler.peer_unchoked(addr1);
    assert_eq!(blocks1.len(), 2);

    assert_eq!(scheduler.peer_has_piece(addr2, 0), PeerPieceResponse::ExpressInterest);
    let blocks2 = scheduler.peer_unchoked(addr2);
    assert_eq!(blocks2.len(), 2);

    for b1 in &blocks1 {
        assert!(!blocks2.contains(b1));
    }
}

#[test]
fn invalidated_piece_is_handed_out_again() {
    let mut scheduler = test_scheduler(&[]);
    let addr = 1;

    assert_eq!(scheduler.peer_has_piece(addr, 5), PeerPieceResponse::ExpressInterest);
    assert_eq!(scheduler.peer_unchoked(addr), vec![Block::new(5, 0, 8)]);
    assert!(scheduler.is_downloading(5));

    scheduler.invalidate(5);
    assert!(!scheduler.is_downloading(5));

    let addr2 = 2;
    assert_eq!(scheduler.peer_has_piece(addr2, 5), PeerPieceResponse::ExpressInterest);
    assert_eq!(scheduler.peer_unchoked(addr2), vec![Block::new(5, 0, 8)]);
}

#[test]
fn pieces_out_of_the_torrent_are_ignored() {
    let mut scheduler = test_scheduler(&[]);
    assert_eq!(scheduler.peer_has_piece(1, 6), PeerPieceResponse::NoAction);
    assert!(!scheduler.knows_peer(1));
}

#[test]
fn checks_before_dropping_a_peer() {
    let mut scheduler = test_scheduler(&[]);
    let addr = 1;
    assert_eq!(scheduler.peer_has_piece(addr, 2), PeerPieceResponse::ExpressInterest);
    assert_eq!(scheduler.peer_unchoked(addr), vec![Block::new(2, 0, 8)]);
    assert!(scheduler.knows_peer(addr));
    assert!(scheduler.assigned_active(addr));
    assert!(scheduler.peer_pieces_known(addr));
    assert!(scheduler.completion_ready(2));
    assert!(!scheduler.completion_ready(3));
    assert!(scheduler.block_in_flight(addr, &Block::new(2, 0, 8)));
    assert!(!scheduler.block_in_flight(addr, &Block::new(2, 8, 8)));
}

#[test]
fn last_piece_is_shorter() {
    let mut scheduler = test_scheduler_with(16384, 10, &[]);
    let addr = 1;
    assert_eq!(scheduler.peer_has_piece(addr, 5), PeerPieceResponse::ExpressInterest);
    assert_eq!(scheduler.peer_unchoked(addr), vec![Block::new(5, 0, 10517)]);
}

#[test]
fn choked_peer_has_nothing_in_flight_and_blocks_go_out_once() {
    let mut scheduler = test_scheduler_with(8, 2, &[]);
    assert_eq!(scheduler.peer_has_piece(1, 0), PeerPieceResponse::ExpressInterest);
    assert_eq!(scheduler.peer_has_piece(2, 0), PeerPieceResponse::ExpressInterest);
    let first = scheduler.peer_unchoked(1);
    assert_eq!(first, vec![Block::new(0, 0, 8), Block::new(0, 8, 8)]);
    scheduler.peer_choked(1);
    assert!(!scheduler.block_in_flight(1, &first[0]));
    assert!(!scheduler.block_in_flight(1, &first[1]));
    // the blocks given back go to the next peer, and only to it
    let second = scheduler.peer_unchoked(2);
    assert_eq!(second, first);
    let again = scheduler.peer_unchoked(1);
    assert_eq!(again, vec![Block::new(0, 16, 8), Block::new(0, 24, 8)]);
    for block in &second {
        assert!(scheduler.block_in_flight(2, block));
        assert!(!scheduler.block_in_flight(1, block));
    }
}
