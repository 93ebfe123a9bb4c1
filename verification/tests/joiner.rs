use bittorrent::crypto::Sha1;
use bittorrent::joiner::{Joiner, Status};
use bittorrent::sizes::Sizes;

fn sizes() -> Sizes {
    Sizes::new(8, 12, 4)
}

#[test]
fn joiner_piece_incomplete() {
    let mut joiner = Joiner::new(&sizes(), vec![Sha1([0; 20]), Sha1([0; 20])]);

    assert_eq!(joiner.add(0, 0, vec![0; 4]), Status::Incomplete);
}

#[test]
fn joiner_piece_complete() {
    let mut joiner = Joiner::new(
        &sizes(),
        vec![Sha1::from_hex("30c921e4aae2b54c45f25de2e89f35ec1ce24e14").unwrap(), Sha1([0; 20])],
    );

    assert_eq!(joiner.add(0, 0, vec![0; 4]), Status::Incomplete);
    assert_eq!(
        joiner.add(0, 4, vec![1; 4]),
        Status::Complete { offset: 0, data: vec![0, 0, 0, 0, 1, 1, 1, 1] }
    );
}

#[test]
fn joiner_piece_complete_but_invalid() {
    let mut joiner = Joiner::new(&sizes(), vec![Sha1([0; 20]), Sha1([0; 20])]);

    assert_eq!(joiner.add(0, 0, vec![0; 4]), Status::Incomplete);
    assert_eq!(joiner.add(0, 4, vec![0; 4]), Status::Invalid);
}

#[test]
fn reset_piece_after_invalidation() {
    let mut joiner = Joiner::new(
        &sizes(),
        vec![Sha1::from_hex("05fe405753166f125559e7c9ac558654f107c7e9").unwrap(), Sha1([0; 20])],
    );

    assert_eq!(joiner.add(0, 0, vec![1; 4]), Status::Incomplete);
    assert_eq!(joiner.add(0, 4, vec![1; 4]), Status::Invalid);

    assert_eq!(joiner.add(0, 0, vec![0; 4]), Status::Incomplete);
    assert!(matches!(joiner.add(0, 4, vec![0; 4]), Status::Complete { .. }));
}

#[test]
fn joiner_last_piece_has_fewer_blocks() {
    let sizes = Sizes::new(24, 36, 8);
    let mut joiner = Joiner::new(
        &sizes,
        vec![
            Sha1::from_hex("d3399b7262fb56cb9ed053d68db9291c410839c4").unwrap(),
            Sha1::from_hex("2c513f149e737ec4063fc1d37aee9beabc4b4bbf").unwrap(),
        ],
    );

    assert_eq!(joiner.add(0, 0, vec![0; 8]), Status::Incomplete);
    assert_eq!(joiner.add(0, 8, vec![0; 8]), Status::Incomplete);
    assert!(matches!(joiner.add(0, 16, vec![0; 8]), Status::Complete { .. }));
    assert_eq!(joiner.add(1, 0, vec![0; 8]), Status::Incomplete);
    assert!(matches!(joiner.add(1, 8, vec![0; 4]), Status::Complete { offset: 24, .. }));
}

#[test]
fn joiner_add_blocks_out_of_order() {
    let sizes = Sizes::new(6, 6, 2);
    let mut joiner = Joiner::new(&sizes, vec![Sha1::from_hex("20bb50f8b56e82fd951e14fd0476eee5e0fa26e4").unwrap()]);

    assert_eq!(joiner.add(0, 0, vec![1; 2]), Status::Incomplete);
    assert_eq!(joiner.add(0, 4, vec![3; 2]), Status::Incomplete);
    assert_eq!(joiner.add(0, 2, vec![2; 2]), Status::Complete { offset: 0, data: vec![1, 1, 2, 2, 3, 3] });
}

#[test]
fn a_block_sent_twice_replaces_the_first() {
    let mut joiner = Joiner::new(
        &sizes(),
        vec![Sha1::from_hex("30c921e4aae2b54c45f25de2e89f35ec1ce24e14").unwrap(), Sha1([0; 20])],
    );
    assert_eq!(joiner.add(0, 0, vec![9; 4]), Status::Incomplete);
    assert_eq!(joiner.add(0, 0, vec![0; 4]), Status::Incomplete);
    assert_eq!(
        joiner.add(0, 4, vec![1; 4]),
        Status::Complete { offset: 0, data: vec![0, 0, 0, 0, 1, 1, 1, 1] }
    );
}
