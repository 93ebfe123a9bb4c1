use std::collections::HashSet;

use bittorrent::choke::Choker;
use bittorrent::stats::TransferRate;

const SEC: u64 = 1_000_000_000;

fn kib_per_sec(kib: u64) -> TransferRate {
    TransferRate(kib * 1024, SEC)
}

fn set(peers: &[u64]) -> HashSet<u64> {
    peers.iter().copied().collect()
}

fn as_set(peers: &Vec<u64>) -> HashSet<u64> {
    peers.iter().copied().collect()
}

#[test]
fn less_than_3_interested_peers() {
    let mut choker = Choker::new(3);

    let peer1 = 1;
    choker.peer_interested(peer1);

    let peer2 = 2;
    choker.peer_interested(peer2);

    let decision = choker.run();
    assert_eq!(as_set(&decision.peers_to_unchoke), set(&[peer1, peer2]));
    assert!(decision.peers_to_choke.is_empty());
}

#[test]
fn select_top_peers_to_unchoke_by_transfer_rate() {
    let mut choker = Choker::new(3);

    let peer1 = 1;
    choker.update_peer_transfer_rate(peer1, kib_per_sec(20));
    choker.peer_interested(peer1);

    let peer2 = 2;
    choker.update_peer_transfer_rate(peer2, kib_per_sec(10));
    choker.peer_interested(peer2);

    let peer3 = 3;
    choker.update_peer_transfer_rate(peer3, kib_per_sec(30));
    choker.peer_interested(peer3);

    let peer4 = 4;
    choker.update_peer_transfer_rate(peer4, kib_per_sec(40));
    choker.peer_interested(peer4);

    let peer5 = 5;
    choker.update_peer_transfer_rate(peer5, kib_per_sec(50));

    let decision = choker.run();

    assert_eq!(as_set(&decision.peers_to_unchoke), set(&[peer1, peer3, peer4]));
    assert!(decision.peers_to_choke.is_empty());
}

#[test]
fn rechoke_previously_unchoked_peers_if_not_selected() {
    let mut choker = Choker::new(3);

    let peer1 = 1;
    choker.update_peer_transfer_rate(peer1, kib_per_sec(20));
    choker.peer_interested(peer1);

    let peer2 = 2;
    choker.update_peer_transfer_rate(peer2, kib_per_sec(10));
    choker.peer_interested(peer2);

    let peer3 = 3;
    choker.update_peer_transfer_rate(peer3, kib_per_sec(30));

    let peer4 = 4;
    choker.update_peer_transfer_rate(peer4, kib_per_sec(40));

    let peer5 = 5;
    choker.update_peer_transfer_rate(peer5, kib_per_sec(50));
    choker.peer_interested(peer5);

    let decision = choker.run();
    assert_eq!(as_set(&decision.peers_to_unchoke), set(&[peer1, peer2, peer5]));

    choker.peer_interested(peer3);
    choker.peer_interested(peer4);

    choker.peer_not_interested(peer5);

    let decision = choker.run();
    assert_eq!(as_set(&decision.peers_to_unchoke), set(&[peer3, peer4]));
    assert_eq!(as_set(&decision.peers_to_choke), set(&[peer2, peer5]));
}

#[test]
fn optimistically_unchoke_randomly_selected_peer() {
    let mut choker = Choker::new(1);

    let peer1 = 1;
    choker.update_peer_transfer_rate(peer1, kib_per_sec(20));
    choker.peer_interested(peer1);

    let peer2 = 2;
    choker.update_peer_transfer_rate(peer2, kib_per_sec(10));
    choker.peer_interested(peer2);

    let peer3 = 3;
    choker.update_peer_transfer_rate(peer3, kib_per_sec(30));
    choker.peer_interested(peer3);

    let peer4 = 4;
    choker.update_peer_transfer_rate(peer4, kib_per_sec(40));
    choker.peer_interested(peer4);

    let peer5 = 5;
    choker.update_peer_transfer_rate(peer5, kib_per_sec(50));

    let decision = choker.run();
    assert_eq!(as_set(&decision.peers_to_unchoke), set(&[peer1, peer2, peer3, peer4]));
}

#[test]
fn keep_unchoked_peers_if_selected_again() {
    let mut choker = Choker::new(3);

    let peer1 = 1;
    choker.peer_interested(peer1);

    let peer2 = 2;
    choker.peer_interested(peer2);

    let peer3 = 3;
    choker.peer_interested(peer3);

    let decision = choker.run();
    assert_eq!(as_set(&decision.peers_to_unchoke), set(&[peer1, peer2, peer3]));

    let decision = choker.run();
    assert!(decision.peers_to_choke.is_empty());
    assert!(decision.peers_to_unchoke.is_empty());

    let decision = choker.run();
    assert!(decision.peers_to_choke.is_empty());
    assert!(decision.peers_to_unchoke.is_empty());
}

#[test]
fn disconnected_peer_is_choked_no_more() {
    let mut choker = Choker::new(3);
    choker.peer_interested(1);
    let decision = choker.run();
    assert_eq!(decision.peers_to_unchoke, vec![1]);
    assert!(choker.is_unchoked(1));

    choker.peer_disconnected(1);
    assert!(!choker.is_unchoked(1));
    let decision = choker.run();
    assert!(decision.peers_to_choke.is_empty());
    assert!(decision.peers_to_unchoke.is_empty());
}

#[test]
fn rates_add_up_per_peer() {
    let mut choker = Choker::new(3);
    choker.update_peer_transfer_rate(1, kib_per_sec(5));
    choker.update_peer_transfer_rate(1, kib_per_sec(5));
    choker.update_peer_transfer_rate(2, kib_per_sec(6));
    choker.update_peer_transfer_rate(3, kib_per_sec(7));
    choker.update_peer_transfer_rate(4, kib_per_sec(8));
    for p in 1..=4 {
        choker.peer_interested(p);
    }
    // Peer 1 has 10 KiB over 2 s, the slowest of the four.
    let decision = choker.run();
    assert_eq!(as_set(&decision.peers_to_unchoke), set(&[2, 3, 4]));
}
