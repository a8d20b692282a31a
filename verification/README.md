# rustorrent

A minimal BitTorrent client. The library (`src/`) is verified with Verus;
the command-line program (`app/main.rs`) does the file, network and terminal
work around it.

- `bencode`: decoding (`decode`, `parse_value`) and encoding (`encode`) of
  bencode, specified by `grammar::spec_parse` and `grammar::spec_encode`;
  `laws` proves that decoding an encoding gives the value back and that
  decoded dictionaries keep their keys sorted; `canonical` proves that
  reading never looks past the value read, and that encoding gives back
  every input written canonically.
- `torrent`: reading single-file metainfo (`MetaInfo::from_bytes`), with
  the info hash as the SHA-1 of the bencoded `info` dictionary.
- `tracker`: the announce request, its query string and URL, and reading a
  compact tracker answer.
- `peer`: peer wire messages and how a frame's length bytes are read
  (`frame_start`), the handshake, the decisions of downloading a piece
  block by block (`PieceDownload`, with proofs that nothing is requested
  before the peer unchokes us and that a whole run requests each block once,
  in order, covering the piece), and the file assembled from its pieces in
  order (`assemble_file`).
- `digest`, `encoding`, `text`, `url_ops`, `random`: the calls into `sha1`,
  `hex`, `urlencoding`, `url`, `rand` and std, each with the contract the
  rest of the library relies on.
