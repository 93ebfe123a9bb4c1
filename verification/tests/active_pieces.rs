use bittorrent::active_pieces::{ActivePiece, ActivePieces};
use bittorrent::available_pieces::AvailablePiece;
use bittorrent::blocks::Blocks;
use bittorrent::message::Block;

#[test]
fn no_pieces_to_assign_from() {
    let mut pieces = ActivePieces::new();
    let addr = 1;
    let mut blocks = Vec::new();

    let assigned = pieces.try_assign_n(addr, 1, &mut blocks);

    assert_eq!(assigned, 0);
    assert!(blocks.is_empty());
}

#[test]
fn assign_one_piece() {
    let mut pieces = ActivePieces::new();
    let addr = 1;
    let mut blocks = Vec::new();

    let piece = AvailablePiece::new(0, addr);
    let piece_blocks = Blocks::new(0, 8, 8);
    pieces.insert(0, ActivePiece::new(piece, piece_blocks));

    let assigned = pieces.try_assign_n(addr, 1, &mut blocks);

    assert_eq!(assigned, 1);
    assert_eq!(blocks, vec![Block::new(0, 0, 8)]);
}

#[test]
fn assign_multiple_pieces() {
    let mut pieces = ActivePieces::new();
    let addr = 1;
    let mut blocks = Vec::new();

    let piece = AvailablePiece::new(0, addr);
    let piece_blocks = Blocks::new(0, 16, 8);
    pieces.insert(0, ActivePiece::new(piece, piece_blocks));

    let assigned = pieces.try_assign_n(addr, 2, &mut blocks);

    assert_eq!(assigned, 2);
    assert_eq!(blocks, vec![Block::new(0, 0, 8), Block::new(0, 8, 8)]);
}

#[test]
fn assign_less_blocks_than_requested() {
    let mut pieces = ActivePieces::new();
    let addr = 1;
    let mut blocks = Vec::new();

    let piece = AvailablePiece::new(0, addr);
    let piece_blocks = Blocks::new(0, 16, 8);
    pieces.insert(0, ActivePiece::new(piece, piece_blocks));

    let assigned = pieces.try_assign_n(addr, 3, &mut blocks);

    assert_eq!(assigned, 2);
    assert_eq!(blocks, vec![Block::new(0, 0, 8), Block::new(0, 8, 8)]);
}

#[test]
fn assign_blocks_from_multiple_pieces_if_needed() {
    let mut pieces = ActivePieces::new();
    let addr = 1;
    let mut blocks = Vec::new();

    let piece0 = AvailablePiece::new(0, addr);
    let piece0_blocks = Blocks::new(0, 16, 8);
    pieces.insert(0, ActivePiece::new(piece0, piece0_blocks));

    let piece1 = AvailablePiece::new(1, addr);
    let piece1_blocks = Blocks::new(1, 16, 8);
    pieces.insert(1, ActivePiece::new(piece1, piece1_blocks));

    let assigned = pieces.try_assign_n(addr, 3, &mut blocks);

    assert_eq!(assigned, 3);
}

#[test]
fn assign_released_blocks_first() {
    let addr = 1;

    let available_piece = AvailablePiece::new(0, addr);
    let piece_blocks = Blocks::new(0, 16, 8);
    let mut piece = ActivePiece::new(available_piece, piece_blocks);

    let mut blocks = Vec::new();
    assert_eq!(piece.try_assign_n(1, &mut blocks), 1);
    assert_eq!(blocks, vec![Block::new(0, 0, 8)]);

    piece.unassign(Block::new(0, 0, 8));

    let mut blocks = Vec::new();
    assert_eq!(piece.try_assign_n(1, &mut blocks), 1);
    assert_eq!(blocks, vec![Block::new(0, 0, 8)]);

    let mut blocks = Vec::new();
    assert_eq!(piece.try_assign_n(1, &mut blocks), 1);
    assert_eq!(blocks, vec![Block::new(0, 8, 8)]);
}

#[test]
fn ignore_pieces_peer_does_not_have() {
    let mut pieces = ActivePieces::new();
    let addr1 = 1;
    let addr2 = 2;
    let mut blocks = Vec::new();

    let piece = AvailablePiece::new(0, addr1);
    let piece_blocks = Blocks::new(0, 16, 8);
    pieces.insert(0, ActivePiece::new(piece, piece_blocks));

    let assigned = pieces.try_assign_n(addr2, 1, &mut blocks);

    assert_eq!(assigned, 0);
    assert!(blocks.is_empty());
}

#[test]
fn removed_piece_keeps_its_peers() {
    let mut pieces = ActivePieces::new();
    let piece = AvailablePiece::new(3, 7);
    pieces.insert(3, ActivePiece::new(piece, Blocks::new(3, 16, 8)));
    assert!(pieces.contains(3));
    assert_eq!(pieces.peers_of(3), vec![7]);
    let removed = pieces.remove(3);
    assert_eq!(removed.index, 3);
    assert_eq!(removed.peers(), &[7]);
    assert!(!pieces.contains(3));
}

#[test]
fn unassign_to_a_piece_not_downloaded_is_ignored() {
    let mut pieces = ActivePieces::new();
    assert!(!pieces.unassign(Block::new(0, 0, 8)));
}
