# bit codec

Bit-level encoding and decoding, verified with Verus.

`BitWriter` packs bit fields, most significant bit first, into a byte
buffer; `BitReader` takes them apart again. On top of them, `BitEncode` and
`BitDecode` give codecs for integers (little-endian bytes), `bool` (one bit),
`char`, strings and sequences (a `VarLen` length, then the contents), arrays
(no length), `Option` and `Result` (one tag bit), tuples, the pointer types,
`Cow`, `VecDeque`, `Range`, `Duration` and `Wrapping`; `HashSet`,
`BTreeSet`, `HashMap` and `BTreeMap` with integer keys, written in
increasing key order (`keyed`); the library's own
`RangeInclusive`, `NonZero` and network address types (`net`), which
`app/` converts to and from their `std` forms; and `CountedSeq`, a sequence
whose length header has a chosen integer type.

There is no derive macro: a codec for a struct or enum is written by hand,
fields in order, a field of a declared width through `write_bits` and
`read_bits`, and an enum's variant index first, with the width rules and
the index check of `layout`.

Every codec states, over a model of its value, the bits it writes and what it
reads back; the `RoundTrip` trait proves that decoding an encoding, whatever
follows it, gives the value back and stops where the encoding ends.

Layout:

- `src/bits.rs`, `src/le.rs`: the bit-string model and little-endian bytes.
- `src/enc.rs`, `src/dec.rs`, `src/primitive.rs`: the writer, the reader and
  the integer types bit fields are read into.
- `src/codec.rs`, `src/laws.rs`: the codec traits and the laws that tie the
  writer to the reader.
- `src/ints.rs`, `src/text.rs`, `src/seqs.rs`, `src/tuples.rs`, `src/wrap.rs`,
  `src/cow.rs`, `src/deque.rs`, `src/ranges.rs`, `src/time.rs`, `src/num.rs`,
  `src/net.rs`, `src/keyed.rs`,
  `src/var_len.rs`, `src/counted.rs`: the codecs.
- `src/layout.rs`: the width rules for bit fields and variant indexes.
- `app/lib.rs`: reading from and writing to `std::io`.
