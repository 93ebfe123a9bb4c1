use bittorrent::bitset::PieceSet;
use bittorrent::event::{Command, Event, EventHandler};
use bittorrent::message::{Block, BlockData, Message};
use bittorrent::sizes::Sizes;
use bittorrent::stats::{PeerStats, TransferRate};

const SEC: u64 = 1_000_000_000;

/// The download of the tests: 174357 bytes in pieces of 32 KiB, blocks of
/// 16 KiB, ten requests per peer, optimistic unchoking every third run,
/// idle peers dropped after 240 s and requests given up on after 30 s.
fn create_event_handler_with(has_pieces: &[usize]) -> EventHandler {
    let sizes = Sizes::new(32 * 1024, 174357, 16 * 1024);
    EventHandler::new(sizes, 10, 3, 240 * SEC, 30 * SEC, PieceSet::from_pieces(has_pieces))
}

fn create_event_handler() -> EventHandler {
    create_event_handler_with(&[])
}

fn handle(handler: &mut EventHandler, event: Event, now: u64) -> Vec<Command> {
    assert!(handler.can_handle(&event));
    handler.handle(event, now)
}

#[test]
fn handler_keep_alive() {
    let mut event_handler = create_event_handler();

    assert_eq!(
        handle(&mut event_handler, Event::KeepAliveTicked, 0),
        vec![Command::Broadcast(Message::KeepAlive)]
    );
}

#[test]
fn handler_sequence() {
    let mut handler = create_event_handler();

    let addr = 1;

    assert_eq!(
        handle(&mut handler, Event::ConnectionRequested(addr), 0),
        vec![Command::EstablishConnection(addr)]
    );

    assert_eq!(
        handle(&mut handler, Event::MessageReceived(addr, Message::Have(0)), 0),
        vec![Command::Send(addr, Message::Interested)]
    );

    assert_eq!(
        handle(&mut handler, Event::MessageReceived(addr, Message::Unchoke), 0),
        vec![
            Command::Send(addr, Message::Request(Block::new(0, 0, 16384))),
            Command::Send(addr, Message::Request(Block::new(0, 16384, 16384))),
        ]
    );

    let block_data = BlockData { piece: 0, offset: 0, data: vec![0; 16384] };
    assert_eq!(
        handle(&mut handler, Event::MessageReceived(addr, Message::Piece(block_data.clone())), 0),
        vec![Command::IntegrateBlock(block_data)]
    );

    assert_eq!(
        handle(&mut handler, Event::MessageReceived(addr, Message::Have(5)), 0),
        vec![Command::Send(addr, Message::Request(Block::new(5, 0, 10517)))]
    );

    assert_eq!(handle(&mut handler, Event::Disconnected(addr), 0), vec![Command::RemovePeer(addr)]);
}

#[test]
fn pieces_are_offered_on_connection() {
    let mut handler = create_event_handler_with(&[0, 2]);
    let commands = handle(&mut handler, Event::ConnectionAccepted(7), 0);
    assert_eq!(
        commands,
        vec![
            Command::EstablishConnection(7),
            Command::Send(7, Message::Bitfield(PieceSet::from_pieces(&[0, 2]))),
        ]
    );
}

#[test]
fn bitfield_announces_each_piece() {
    let mut handler = create_event_handler();
    handle(&mut handler, Event::MessageReceived(1, Message::Unchoke), 0);
    let commands = handle(&mut handler, Event::MessageReceived(1, Message::Bitfield(PieceSet::from_pieces(&[1, 3]))), 0);
    assert_eq!(
        commands,
        vec![
            Command::Send(1, Message::Interested),
            Command::Send(1, Message::Request(Block::new(1, 0, 16384))),
            Command::Send(1, Message::Request(Block::new(1, 16384, 16384))),
            Command::Send(1, Message::Request(Block::new(3, 0, 16384))),
            Command::Send(1, Message::Request(Block::new(3, 16384, 16384))),
        ]
    );
}

#[test]
fn uploads_only_to_unchoked_peers_pieces_the_client_has() {
    let mut handler = create_event_handler_with(&[0]);
    handle(&mut handler, Event::MessageReceived(1, Message::Interested), 0);
    let request = Message::Request(Block::new(0, 0, 16384));
    assert!(handle(&mut handler, Event::MessageReceived(1, request.clone()), 0).is_empty());

    let commands = handle(&mut handler, Event::ChokeTicked, 0);
    assert_eq!(commands, vec![Command::Send(1, Message::Unchoke)]);

    assert_eq!(
        handle(&mut handler, Event::MessageReceived(1, request), 0),
        vec![Command::Upload(1, Block::new(0, 0, 16384))]
    );
    assert!(handle(&mut handler, Event::MessageReceived(1, Message::Request(Block::new(1, 0, 16384))), 0).is_empty());

    let commands = handle(&mut handler, Event::StatsTicked, 0);
    match &commands[..] {
        [Command::UpdateStats(stats)] => {
            assert_eq!(stats.uploaded, 32 * 1024);
            assert_eq!(stats.completed_pieces, 1);
            assert_eq!(stats.total_pieces, 6);
        },
        _ => panic!("unexpected commands {:?}", commands),
    }
}

#[test]
fn completed_piece_is_announced() {
    let mut handler = create_event_handler();
    handle(&mut handler, Event::MessageReceived(1, Message::Have(2)), 0);
    handle(&mut handler, Event::MessageReceived(1, Message::Unchoke), 0);
    assert!(handler.can_handle(&Event::PieceCompleted(2)));
    assert!(!handler.can_handle(&Event::PieceCompleted(3)));
    let commands = handle(&mut handler, Event::PieceCompleted(2), 0);
    assert_eq!(
        commands,
        vec![Command::Broadcast(Message::Have(2)), Command::Send(1, Message::NotInterested)]
    );
}

#[test]
fn failed_piece_is_downloaded_again() {
    let mut handler = create_event_handler();
    handle(&mut handler, Event::MessageReceived(1, Message::Have(4)), 0);
    handle(&mut handler, Event::MessageReceived(1, Message::Unchoke), 0);
    assert!(handle(&mut handler, Event::PieceVerificationFailed(4), 0).is_empty());
    assert!(!handler.can_handle(&Event::PieceVerificationFailed(4)));
    handle(&mut handler, Event::MessageReceived(2, Message::Unchoke), 0);
    assert_eq!(
        handle(&mut handler, Event::MessageReceived(2, Message::Have(4)), 0),
        vec![
            Command::Send(2, Message::Interested),
            Command::Send(2, Message::Request(Block::new(4, 0, 16384))),
            Command::Send(2, Message::Request(Block::new(4, 16384, 16384))),
        ]
    );
}

#[test]
fn sweep_drops_idle_peers_and_reassigns_blocks() {
    let mut handler = create_event_handler();
    handle(&mut handler, Event::MessageReceived(1, Message::Have(0)), 0);
    handle(&mut handler, Event::MessageReceived(1, Message::Unchoke), 0);
    handle(&mut handler, Event::MessageReceived(2, Message::Have(0)), 20 * SEC);
    assert!(handle(&mut handler, Event::MessageReceived(2, Message::Unchoke), 20 * SEC).is_empty());

    // The requests to peer 1 are given up on; each goes back to peer 1.
    let commands = handle(&mut handler, Event::SweepTicked(30 * SEC), 30 * SEC);
    assert_eq!(commands.len(), 2);
    assert!(commands.contains(&Command::Send(1, Message::Request(Block::new(0, 0, 16384)))));
    assert!(commands.contains(&Command::Send(1, Message::Request(Block::new(0, 16384, 16384)))));

    // Peer 1 has been idle the longest.
    let commands = handle(&mut handler, Event::SweepTicked(240 * SEC), 240 * SEC);
    assert_eq!(commands[0], Command::RemovePeer(1));
}

#[test]
fn choke_gives_blocks_back() {
    let mut handler = create_event_handler();
    handle(&mut handler, Event::MessageReceived(1, Message::Have(0)), 0);
    handle(&mut handler, Event::MessageReceived(1, Message::Unchoke), 0);
    assert!(handle(&mut handler, Event::MessageReceived(1, Message::Choke), 0).is_empty());
    handle(&mut handler, Event::MessageReceived(2, Message::Have(0)), 0);
    assert_eq!(
        handle(&mut handler, Event::MessageReceived(2, Message::Unchoke), 0),
        vec![
            Command::Send(2, Message::Request(Block::new(0, 0, 16384))),
            Command::Send(2, Message::Request(Block::new(0, 16384, 16384))),
        ]
    );
}

#[test]
fn unrequested_block_is_ignored() {
    let mut handler = create_event_handler();
    let data = BlockData { piece: 0, offset: 0, data: vec![1; 4] };
    assert!(!handler.can_handle(&Event::MessageReceived(1, Message::Piece(data.clone()))));
    handle(&mut handler, Event::MessageReceived(1, Message::Have(0)), 0);
    assert!(handle(&mut handler, Event::MessageReceived(1, Message::Piece(data)), 0).is_empty());
}

#[test]
fn stats_add_up_and_shutdown_is_passed_on() {
    let mut handler = create_event_handler();
    let stats = PeerStats { upload: TransferRate(1, 2), download: TransferRate(3, 4) };
    assert!(handle(&mut handler, Event::StatsUpdated(1, stats), 0).is_empty());
    assert!(handle(&mut handler, Event::StatsUpdated(2, stats), 0).is_empty());
    match &handle(&mut handler, Event::StatsTicked, 0)[..] {
        [Command::UpdateStats(s)] => {
            assert_eq!(s.upload_rate, TransferRate(2, 4));
            assert_eq!(s.download_rate, TransferRate(6, 8));
        },
        other => panic!("unexpected commands {:?}", other),
    }
    assert_eq!(handle(&mut handler, Event::ShutdownRequested, 0), vec![Command::Shutdown]);
}
