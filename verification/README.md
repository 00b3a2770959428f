# SweetMagnet

A BitTorrent client for magnet links. `src/` is the protocol logic as a Verus
library; `app/` is the command-line program that reads and writes sockets and
files around it; `tests/` runs the library.

## The library

| Module | What it holds |
|--------|---------------|
| `magnet` | magnet links and their parameters |
| `message`, `peer` | the messages between peers, and what is known of a peer |
| `piece` | blocks, pieces, and which of them are still needed |
| `metadata`, `fetch`, `discovery` | torrent metadata, its exchange with a peer (BEP-9), and which peers are asked for it |
| `tracker`, `udp_tacker` | announces to HTTP and UDP trackers |
| `dht` | queries to and answers of DHT nodes |
| `client`, `requests` | the state of a download |
| `config`, `cli`, `error` | configuration, command line, errors |
| `bencode`, `entries`, `wire`, `text`, `web`, `digest`, `random`, `clock`, `address` | what the others are built of |

Functions that start with `law_` state what holds of several functions
together: that a message is read back as it was written, that a downloaded
piece has the hash it should have, that metadata from a peer has the info hash
that was asked for.

Outside crates are called through small functions marked `external_body`, each
with a doc comment that says what is taken for granted of the call.
