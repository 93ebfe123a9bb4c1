use std::cmp::Ordering;

use bittorrent::stats::{GlobalStats, PeerStats, TransferRate};

const SEC: u64 = 1_000_000_000;

#[test]
fn add() {
    let a = TransferRate(10 * 1024, SEC);
    let b = TransferRate(20 * 1024, SEC);

    assert_eq!(a.add(b), TransferRate(30 * 1024, 2 * SEC));
}

#[test]
fn ordering() {
    let rate_10_kbps = TransferRate(10 * 1024, SEC);
    let rate_20_kbps = TransferRate(20 * 1024, SEC);
    let rate_30_kbps = TransferRate(30 * 1024, SEC);
    let mut rates = vec![&rate_10_kbps, &rate_30_kbps, &rate_20_kbps];
    rates.sort_by(|a, b| a.rate_cmp(b));

    assert_eq!(rates, vec![&rate_10_kbps, &rate_20_kbps, &rate_30_kbps]);
}

#[test]
fn rates_compare_by_bytes_per_time() {
    assert_eq!(TransferRate(10, 2).rate_cmp(&TransferRate(5, 1)), Ordering::Equal);
    assert_eq!(TransferRate(10, 3).rate_cmp(&TransferRate(5, 1)), Ordering::Less);
    assert!(TransferRate(0, 0).is_slower(&TransferRate(0, 1)));
    assert!(TransferRate(1, 1).is_slower(&TransferRate(1, 0)));
    assert!(!TransferRate(3, 1).is_slower(&TransferRate(3, 1)));
}

#[test]
fn add_assign_sums_both_parts() {
    let mut r = TransferRate::empty();
    r.add_assign(TransferRate(7, 3));
    r.add_assign(TransferRate(1, 1));
    assert_eq!(r, TransferRate(8, 4));

    let mut s = PeerStats::default();
    s.add_assign(PeerStats { upload: TransferRate(1, 2), download: TransferRate(3, 4) });
    assert_eq!(s, PeerStats { upload: TransferRate(1, 2), download: TransferRate(3, 4) });
}

#[test]
fn download_completes_with_the_last_piece() {
    let stats = GlobalStats::new(6, 5);
    assert!(!stats.download_complete());
    assert_eq!(stats.connected_peers, 0);
    assert!(GlobalStats::new(6, 6).download_complete());
}
