use bittorrent::message::Block;
use bittorrent::sweeper::Sweeper;

const SEC: u64 = 1_000_000_000;
const NOW: u64 = 1_000 * SEC;

#[test]
fn no_peer_to_sweep() {
    let mut sweeper = Sweeper::new(2 * SEC, 0);
    let now = NOW;

    let addr = 1;
    sweeper.update_peer_activity(addr, now);

    assert!(sweeper.sweep(now).peers.is_empty());
}

#[test]
fn sweep_idle_peer() {
    let mut sweeper = Sweeper::new(2 * SEC, 0);
    let now = NOW;

    let addr1 = 1;
    sweeper.update_peer_activity(addr1, now);

    let addr2 = 2;
    sweeper.update_peer_activity(addr2, now);

    sweeper.update_peer_activity(addr1, now + SEC);

    assert_eq!(sweeper.sweep(now + 2 * SEC).peers, vec![addr2]);
}

#[test]
fn no_block_to_sweep() {
    let mut sweeper = Sweeper::new(0, 2 * SEC);
    let now = NOW;

    let addr = 1;
    let block = Block::new(0, 0, 8);
    sweeper.block_requested(addr, block, now);

    assert!(sweeper.sweep(now).blocks.is_empty());
}

#[test]
fn sweep_blocks_that_are_in_flight_for_too_long() {
    let mut sweeper = Sweeper::new(0, 2 * SEC);
    let now = NOW;

    let addr1 = 1;
    let block1 = Block::new(0, 0, 8);
    sweeper.block_requested(addr1, block1, now);

    let addr2 = 2;
    let block2 = Block::new(0, 8, 8);
    sweeper.block_requested(addr2, block2, now + SEC);

    assert_eq!(sweeper.sweep(now + 2 * SEC).blocks, vec![(addr1, block1)]);
}

#[test]
fn mark_downloaded_blocks() {
    let mut sweeper = Sweeper::new(0, 2 * SEC);
    let now = NOW;

    let addr = 1;
    let block = Block::new(0, 0, 8);
    sweeper.block_requested(addr, block, now);

    sweeper.block_downloaded(addr, block);

    assert!(sweeper.sweep(now + 2 * SEC).blocks.is_empty());
}

#[test]
fn idle_peers_come_out_earliest_first() {
    let mut sweeper = Sweeper::new(2 * SEC, 2 * SEC);
    sweeper.update_peer_activity(1, NOW + SEC);
    sweeper.update_peer_activity(2, NOW);
    sweeper.update_peer_activity(3, NOW + 5 * SEC);
    assert_eq!(sweeper.sweep(NOW + 3 * SEC).peers, vec![2, 1]);
    assert!(sweeper.sweep(NOW + 3 * SEC).peers.is_empty());
}

#[test]
fn an_earlier_activity_is_ignored() {
    let mut sweeper = Sweeper::new(2 * SEC, 0);
    sweeper.update_peer_activity(1, NOW + SEC);
    sweeper.update_peer_activity(1, NOW);
    assert!(sweeper.sweep(NOW + 2 * SEC).peers.is_empty());
    assert_eq!(sweeper.sweep(NOW + 3 * SEC).peers, vec![1]);
}

#[test]
fn disconnected_peer_is_forgotten() {
    let mut sweeper = Sweeper::new(SEC, SEC);
    sweeper.update_peer_activity(1, NOW);
    sweeper.block_requested(1, Block::new(0, 0, 8), NOW);
    sweeper.block_requested(2, Block::new(0, 8, 8), NOW);
    sweeper.peer_disconnected(1);
    let result = sweeper.sweep(NOW + SEC);
    assert!(result.peers.is_empty());
    assert_eq!(result.blocks, vec![(2, Block::new(0, 8, 8))]);
}
