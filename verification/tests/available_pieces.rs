use bittorrent::available_pieces::{AvailablePiece, AvailablePieces, PieceState};

#[test]
fn foo() {
    let mut available_pieces = AvailablePieces::new();
    assert_eq!(available_pieces.take_next(1), None);
    assert!(!available_pieces.contains(0));
}

#[test]
fn no_available_pieces() {
    let mut available_pieces = AvailablePieces::new();
    let addr = 1;

    assert_eq!(available_pieces.take_next(addr), None);
}

#[test]
fn no_available_pieces_for_peer() {
    let mut available_pieces = AvailablePieces::new();
    let addr1 = 1;
    let addr2 = 2;

    available_pieces.insert(AvailablePiece::new(0, addr1));

    assert_eq!(available_pieces.take_next(addr2), None);
}

#[test]
fn take_next_piece_for_peer() {
    let mut available_pieces = AvailablePieces::new();
    let addr = 1;

    let piece = AvailablePiece::new(0, addr);
    available_pieces.insert(piece.clone());

    assert_eq!(available_pieces.take_next(addr), Some(piece));
    assert_eq!(available_pieces.take_next(addr), None);
}

#[test]
fn available_pieces_select_rarest_pieces_first() {
    let mut available_pieces = AvailablePieces::new();
    let addr1 = 1;
    let addr2 = 2;

    // Peer #1 has both pieces 0 and 1
    let piece0 = AvailablePiece::new(0, addr1);
    available_pieces.insert(piece0.clone());

    let piece1 = AvailablePiece::new(1, addr1);
    available_pieces.insert(piece1.clone());

    // Peer #2 has piece 0
    available_pieces.peer_has_piece(0, addr2);

    // Piece 1 is rarest, select it first
    assert_eq!(available_pieces.take_next(addr1).unwrap().index, 1);
    assert_eq!(available_pieces.take_next(addr1).unwrap().index, 0);
    assert_eq!(available_pieces.take_next(addr1), None);
    assert_eq!(available_pieces.take_next(addr2), None);
}

#[test]
fn peer_disconnection_updates_priority() {
    let mut available_pieces = AvailablePieces::new();
    let addr1 = 1;
    let addr2 = 2;
    let addr3 = 3;

    // Peer #1 has pieces 0, 1 and 2
    let piece0 = AvailablePiece::new(0, addr1);
    available_pieces.insert(piece0.clone());

    let piece1 = AvailablePiece::new(1, addr1);
    available_pieces.insert(piece1.clone());

    let piece2 = AvailablePiece::new(2, addr1);
    available_pieces.insert(piece2.clone());

    // Peer #2 has pieces 0 and 1
    available_pieces.peer_has_piece(0, addr2);
    available_pieces.peer_has_piece(1, addr2);

    // Peer #3 has piece 1
    available_pieces.peer_has_piece(1, addr3);

    // Peer #1 disconnected
    available_pieces.peer_disconnected(0, addr1);
    available_pieces.peer_disconnected(1, addr1);
    available_pieces.peer_disconnected(2, addr1);

    // Now piece 1 is rarest
    assert_eq!(available_pieces.take_next(addr2).unwrap().index, 0);
    assert_eq!(available_pieces.take_next(addr2).unwrap().index, 1);
    assert_eq!(available_pieces.take_next(addr2), None);
    assert_eq!(available_pieces.take_next(addr3), None);
}

#[test]
fn peer_without_pieces_returns_none() {
    let mut available_pieces = AvailablePieces::new();
    let addr1 = 1;
    let addr2 = 2;

    let piece = AvailablePiece::new(0, addr1);
    available_pieces.insert(piece);

    assert_eq!(available_pieces.take_next(addr2), None);
}

#[test]
fn last_peer_disconnection_makes_piece_orphan() {
    let mut available_pieces = AvailablePieces::new();
    let addr1 = 1;
    let addr2 = 2;

    let piece = AvailablePiece::new(0, addr1);
    available_pieces.insert(piece);
    available_pieces.peer_has_piece(0, addr2);

    assert_eq!(
        available_pieces.peer_disconnected(0, addr1),
        PieceState::Available
    );
    assert_eq!(
        available_pieces.peer_disconnected(0, addr2),
        PieceState::Orphan
    );
    assert!(!available_pieces.contains(0));
}

#[test]
fn ties_go_to_the_lower_index() {
    let mut available_pieces = AvailablePieces::new();
    available_pieces.insert(AvailablePiece::new(7, 1));
    available_pieces.insert(AvailablePiece::new(3, 1));
    available_pieces.insert(AvailablePiece::new(5, 1));
    assert_eq!(available_pieces.take_next(1).unwrap().index, 3);
    assert_eq!(available_pieces.take_next(1).unwrap().index, 5);
    assert_eq!(available_pieces.take_next(1).unwrap().index, 7);
}
