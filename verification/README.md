# bittorrent

A BitTorrent client whose core is a library with machine-checked contracts
(Verus), and a thin program around it.

- `src/` — the library, verified:
  - bencoding: `value`, `encoder`, `parser`, `decoder`, `text`, `bytes`,
    and `torrent` (the metainfo fields a download needs);
  - the peer wire protocol: `message` (frames and the codec), `handshake`,
    `wire` (big-endian fields), `bitset` (piece sets), `crypto` (SHA-1);
  - download logic: `sizes`, `blocks`, `available_pieces`, `active_pieces`,
    `scheduler` (rarest-first piece scheduling) with `flights` (why no
    block is in flight to two peers at once), `choke` (choking
    algorithm), `sweeper` (idle peers and requests given up on), `stats`,
    `joiner` and `piece_assembler` (pieces put together and checked), and
    `event`, the handler that turns events into commands.
- `tests/` — tests of the library.
- `app/` — the program: sockets, files, timers, the DHT and the event loop
  that feeds the handler and carries out its commands.
