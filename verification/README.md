# enxamed

A BitTorrent client that leeches single-file torrents from an `http://` tracker
over TCP peers. Its logic is a library without I/O, verified with
[Verus](https://github.com/verus-lang/verus); a thin tokio program around it
supplies the sockets and the disk.

## The library (`src/`)

- `announce`: the announce URL and the request that is made from it.
- `percent`, `decimal`: how binary fields and numbers are written.
- `http`: where the body of a response starts.
- `bencode`: the notation of tracker answers. `grammar` says what the notation of
  a value is and that no text is the notation of two; `reader` reads exactly the
  texts that are one; `value` looks parts up.
- `peers`, `error`: the peers an answer names, or why it names none.
- `peer_id`: the client's identity.
- `connection`: the steps of a connection to one peer, from the handshake to the
  frames that are handed on.
- `download`: which torrents are taken on, and what is done with the engine's
  actions and with the blocks that arrive.
- `text`: character sequences, and the two facts about the standard library's
  strings that are taken on trust.

## The program (`app/`)

`main` reads the torrent, announces, and runs the loop between the engine, the
library and the world. `tracker` and `peer` hold the sockets. The engine, the
torrent file and the wire codec come from `enxame-engine`, `enxame-metainfo` and
`enxame-peer`.
