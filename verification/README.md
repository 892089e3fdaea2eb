# mx_codec

Verified building blocks of a collaborative-document codec, written in Verus.

- `src/range.rs`: `OrderRange`, a set of clocks kept as one range or as a
  list of ranges, with `push`, `merge`, `squash`, `pop`, `contains` and
  `diff_range`. Contracts state the exact ranges each operation leaves and
  the set of clocks they hold; when each old range lies inside one of the
  new ranges, `diff_range` is proved to report exactly the clocks of the new
  ranges that the old ones do not hold.
- `src/codec.rs`: variable-length integers, length-prefixed buffers and
  UTF-8 strings, with proofs that reading what was written gives it back.
- `src/protocol.rs`: document sync messages, client awareness states and the
  sync messages that carry them, with the same read-after-write proofs.
- `src/marker.rs`: the search-marker cache of list types, over a model of
  the list's items (their order, widths and ids).
- `src/logging.rs`: the naming, filtering and labelling rules of the logger.
- `app/`: writers over `std::io::Write`, and the logger itself (formatter,
  clock and global subscriber), which need I/O and outside traits.
