# terror

A BitTorrent client library whose logic is verified with Verus.

- `src/decoder.rs` decodes bencoded values, and `src/decoder/bencoding.rs`
  states what it gives back for the encoding of any value; `src/encoding.rs` and
  `src/text.rs` hold the byte- and text-level helpers.
- `src/client.rs` and `src/client/download.rs` cover the handshake, tracker
  requests, compact peer lists and the framed peer messages of a single
  download; `src/torrent.rs` holds single-file metainfo and its info hash.
- `src/terror/` is the downloader: metainfo and piece counts
  (`torrent.rs`), the framed codec (`tcp/`), piece bookkeeping and the piece
  pool (`piece.rs`, `piece/piece_pool.rs`), the peers' decisions
  (`peer/`), and the state machines of a download and of the torrent
  registry (`torrent/`).
- `src/buffers.rs` and `src/digest.rs` give contracts to the calls into the
  `bytes` and `sha1` crates.
- `app/` runs the network, the files and the tasks around the library.
