# podstats

Statistics over the subscriptions a podcast fetcher keeps in its MessagePack
cache: their names, entry counts, the subscription with the most entries, and
the earliest and latest entry of each.

- `src/msgpack.rs`: the MessagePack primitives the cache is made of, what
  `rmp` writes and accepts for each, a skipper for values nobody reads, and
  proofs that reading gives back what was written.
- `src/subscription.rs`: a subscription, its model, its MessagePack form
  (`serialize`, `deserialize` and their list versions), and the round-trip
  laws. Writing uses the array form of each struct; reading also takes the
  map form keyed by field names (or positions), skips keys it does not know,
  and takes strings stored as bin.
- `src/ranking.rs`: ordering subscriptions by entry count with `itertools`.
- `src/config.rs`: the cache location, the loaded subscriptions, and the
  statistics over them.
- `src/util.rs`: the menu's decisions (keys, answers, menu numbers).
- `app/`: the program around the library: command line, files, XDG
  directories, YAML config and the raw-mode terminal.
