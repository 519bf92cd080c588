# byteset

A set of bytes kept as a 256-bit mask (four `u64` words; byte `b` is bit
`b % 64` of word `b / 64`), verified with Verus.

- `src/bits.rs`: single-bit facts about `u64` words and the range masks.
- `src/byteset.rs`: `ByteSet`, its model as a `Set<u8>`, and every operation
  (bytes, ranges, sets, queries, counting, byte encodings, named ASCII sets).
- `src/iter.rs`: `ByteSetIter`, which hands out the members in increasing order.
- `src/encoding.rs`: little-endian, big-endian and native encodings of a word.
- `src/ops.rs`: `Default` and the operators `!`, `|`, `&`, `^` (and their assigning forms).
- `src/laws.rs`: properties that span several operations.
- `src/trusted.rs`: contracts of the standard-library functions the code calls
  that vstd leaves unspecified.
