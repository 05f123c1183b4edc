# dht-crawler

A BitTorrent DHT crawler: it joins the DHT, learns nodes from `find_node`
replies, collects the info hashes that peers announce, and fetches each
torrent's metadata from the announcing peer (BEP-9 `ut_metadata`).

## Layout

- `src/` is the verified library, written in Verus:
  - `sharded.rs`: the node pool (16 IPv4 and 16 IPv6 FIFO shards with
    per-shard dedup and eviction, holding at most the capacity it was made
    with), its batch pops and random samples, and the sharded bloom filter
    of info hashes.
  - `bscan.rs`: the shape check that bencoded bytes pass before they are
    handed to the decoder.
  - `compact.rs`: compact node records (26 and 38 bytes) and their round trip.
  - `server.rs`: the KRPC logic (message routing, `find_node` queries,
    replies, tokens, `announce_peer`), the crawl loop's turn, and the UDP
    packet dispatch to workers.
  - `metadata.rs`: the `ut_metadata` exchange as a state machine and the
    parsing of the info dictionary.
  - `scheduler.rs`: the metadata scheduler's counters and the torrent
    description it produces.
  - `types.rs`, `error.rs`, `addr.rs`, `protocol.rs`, `bencode.rs`: the
    options, torrent types, errors, addresses, messages and bencoded values.
- `app/` is the runtime around it (plain Rust): tokio tasks, UDP sockets,
  the TCP metadata fetch, serde and JNI conversions.
- `tests/` runs the library on concrete values.
