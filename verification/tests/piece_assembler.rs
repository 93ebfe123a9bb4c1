use bittorrent::crypto::Sha1;
use bittorrent::piece_assembler::{PieceAssembler, Status};
use bittorrent::sizes::Sizes;

fn sizes() -> Sizes {
    Sizes::new(16, 24, 8)
}

#[test]
fn piece_assembler_piece_incomplete() {
    let mut assembler = PieceAssembler::new(&sizes(), vec![Sha1([0; 20]), Sha1([0; 20])]);

    assert_eq!(assembler.add(0, 0, vec![0; 8]), Status::Incomplete);
}

#[test]
fn piece_assembler_piece_complete() {
    let mut assembler = PieceAssembler::new(
        &sizes(),
        vec![Sha1::from_hex("e129f27c5103bc5cc44bcdf0a15e160d445066ff").unwrap(), Sha1([0; 20])],
    );

    assert_eq!(assembler.add(0, 0, vec![0; 8]), Status::Incomplete);
    assert_eq!(assembler.add(0, 8, vec![0; 8]), Status::Valid);
}

#[test]
fn piece_assembler_piece_complete_but_invalid() {
    let mut assembler = PieceAssembler::new(&sizes(), vec![Sha1([0; 20]), Sha1([0; 20])]);

    assert_eq!(assembler.add(0, 0, vec![0; 8]), Status::Incomplete);
    assert_eq!(assembler.add(0, 8, vec![0; 8]), Status::Invalid);
}

#[test]
fn piece_assembler_last_piece_has_fewer_blocks() {
    let sizes = Sizes::new(24, 36, 8);
    let mut assembler = PieceAssembler::new(
        &sizes,
        vec![
            Sha1::from_hex("d3399b7262fb56cb9ed053d68db9291c410839c4").unwrap(),
            Sha1::from_hex("2c513f149e737ec4063fc1d37aee9beabc4b4bbf").unwrap(),
        ],
    );

    assert_eq!(assembler.add(0, 0, vec![0; 8]), Status::Incomplete);
    assert_eq!(assembler.add(0, 8, vec![0; 8]), Status::Incomplete);
    assert_eq!(assembler.add(0, 16, vec![0; 8]), Status::Valid);
    assert_eq!(assembler.add(1, 0, vec![0; 8]), Status::Incomplete);
    assert_eq!(assembler.add(1, 8, vec![0; 4]), Status::Valid);
}

#[test]
fn piece_assembler_add_blocks_out_of_order() {
    let sizes = Sizes::new(24, 36, 8);
    let mut assembler = PieceAssembler::new(
        &sizes,
        vec![
            Sha1::from_hex("d3399b7262fb56cb9ed053d68db9291c410839c4").unwrap(),
            Sha1::from_hex("2c513f149e737ec4063fc1d37aee9beabc4b4bbf").unwrap(),
        ],
    );

    assert_eq!(assembler.add(0, 0, vec![0; 8]), Status::Incomplete);
    assert_eq!(assembler.add(0, 16, vec![0; 8]), Status::Incomplete);
    assert_eq!(assembler.add(0, 8, vec![0; 8]), Status::Valid);
}

#[test]
fn a_checked_piece_keeps_its_blocks() {
    let mut assembler = PieceAssembler::new(
        &sizes(),
        vec![Sha1::from_hex("e129f27c5103bc5cc44bcdf0a15e160d445066ff").unwrap(), Sha1([0; 20])],
    );
    assert_eq!(assembler.add(0, 0, vec![0; 8]), Status::Incomplete);
    assert_eq!(assembler.add(0, 8, vec![0; 8]), Status::Valid);
    assert_eq!(assembler.add(0, 8, vec![1; 8]), Status::Invalid);
    assert_eq!(assembler.add(0, 8, vec![0; 8]), Status::Valid);
}
