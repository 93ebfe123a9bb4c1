use bittorrent::blocks::Blocks;
use bittorrent::message::Block;
use bittorrent::sizes::Sizes;

#[test]
fn one_piece_one_block() {
    let mut blocks = Blocks::new(0, 1024, 1024);

    assert_eq!(blocks.len(), 1);
    assert_eq!(Some(Block::new(0, 0, 1024)), blocks.next());
    assert_eq!(None, blocks.next());
}

#[test]
fn one_piece_multiple_blocks() {
    let mut blocks = Blocks::new(0, 2048, 1024);

    assert_eq!(blocks.len(), 2);
    assert_eq!(Some(Block::new(0, 0, 1024)), blocks.next());
    assert_eq!(Some(Block::new(0, 1024, 1024)), blocks.next());
    assert_eq!(None, blocks.next());
}

#[test]
fn uneven_block_sizes() {
    let mut blocks = Blocks::new(0, 1066, 1024);

    assert_eq!(blocks.len(), 2);
    assert_eq!(Some(Block::new(0, 0, 1024)), blocks.next());
    assert_eq!(Some(Block::new(0, 1024, 42)), blocks.next());
    assert_eq!(None, blocks.next());
}

#[test]
fn uneven_block_sizes_in_non_first_piece() {
    let mut blocks = Blocks::new(1, 1066, 1024);

    assert_eq!(blocks.len(), 2);
    assert_eq!(Some(Block::new(1, 0, 1024)), blocks.next());
    assert_eq!(Some(Block::new(1, 1024, 42)), blocks.next());
    assert_eq!(None, blocks.next());
}

#[test]
fn uneven_block_sizes_in_last_piece() {
    let mut blocks = Blocks::new(1, 1024 * 3, 1024);

    assert_eq!(blocks.len(), 3);
    assert_eq!(Some(Block::new(1, 0, 1024)), blocks.next());
    assert_eq!(Some(Block::new(1, 1024, 1024)), blocks.next());
    assert_eq!(Some(Block::new(1, 2048, 1024)), blocks.next());
    assert_eq!(None, blocks.next());

    let mut blocks = Blocks::new(2, 1024 * 2, 1024);

    assert_eq!(blocks.len(), 2);
    assert_eq!(Some(Block::new(2, 0, 1024)), blocks.next());
    assert_eq!(Some(Block::new(2, 1024, 1024)), blocks.next());
    assert_eq!(None, blocks.next());
}

#[test]
fn real_world_example() {
    let mut blocks = Blocks::new(5, 6760, 16384);

    assert_eq!(blocks.len(), 1);
    assert_eq!(Some(Block::new(5, 0, 6760)), blocks.next());
    assert_eq!(None, blocks.next());
}

#[test]
fn empty_piece_and_zero_block_size() {
    let mut blocks = Blocks::new(3, 0, 1024);
    assert_eq!(blocks.len(), 0);
    assert_eq!(None, blocks.next());

    let blocks = Blocks::new(3, 10, 0);
    assert_eq!(blocks.len(), usize::MAX);
    assert_eq!(Blocks::new(3, 0, 0).len(), 0);
}

#[test]
fn sizes_of_pieces() {
    let sizes = Sizes::new(32768, 42285, 16384);
    assert_eq!(sizes.total_pieces, 2);
    assert_eq!(sizes.piece_offset(1), 32768);
    assert_eq!(sizes.piece_size(0), 32768);
    assert_eq!(sizes.piece_size(1), 42285 - 32768);

    let sizes = Sizes::new(100, 300, 10);
    assert_eq!(sizes.total_pieces, 3);
    assert_eq!(sizes.piece_size(2), 100);
    assert_eq!(Sizes::new(100, 0, 10).total_pieces, 0);
}

#[test]
fn blocks_for_last_piece() {
    let sizes = Sizes::new(32768, 42285, 16384);
    let mut blocks = Blocks::for_piece(&sizes, 1);
    assert_eq!(blocks.len(), 1);
    assert_eq!(Some(Block::new(1, 0, 9517)), blocks.next());
    assert_eq!(None, blocks.next());
}

#[test]
fn pieces_cover_the_torrent() {
    let sizes = bittorrent::sizes::Sizes::new(32 * 1024, 174357, 16 * 1024);
    assert_eq!(sizes.total_pieces, 6);
    let mut end = 0;
    for piece in 0..sizes.total_pieces {
        assert_eq!(sizes.piece_offset(piece), end);
        end += sizes.piece_size(piece);
    }
    assert_eq!(end, 174357);
    assert_eq!(sizes.piece_size(5), 10517);
}

#[test]
fn len_counts_the_blocks_still_to_come() {
    let mut blocks = Blocks::new(0, 2500, 1024);
    assert_eq!(blocks.len(), 3);
    blocks.next();
    assert_eq!(blocks.len(), 2);
    blocks.next();
    blocks.next();
    assert_eq!(blocks.len(), 0);
    assert_eq!(blocks.next(), None);
}
