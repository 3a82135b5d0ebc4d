# tlv

Type-Length-Value containers over 32-bit word buffers, verified with Verus.

A TLV is a two-word header (a four-byte tag and the payload length in bytes)
followed by its payload, padded with zeros to whole words. The payload holds
the fixed part of an object and an extension: raw bytes or nested TLVs.
Byte buffers are read and written little-endian.

Layout of `src/`:

- `header.rs` — `TlvHeader`: its two words, payload length and padding.
- `bytes.rs` — little-endian conversion between words and bytes.
- `object.rs` — the `TlvObject` trait, `TlvAny`, `unpad`, `word_size_of`.
- `pairs.rs` — `sum_pair_fields`, a walk over a stream that adds the two
  fields of its two-word objects of two given tags.
- `data.rs` — `TlvData`, its iterator and `TlvQuery` (`cast`, `ext`); the
  specification of a TLV stream and the law of iteration over it.
- `host.rs` — `HostTlv`, an owned TLV tree, and its packing; the laws that a
  packed tree reads back as the same tree.
- `builder.rs` — `TlvBuilder`, which writes TLVs in place, and
  `TlvBuilderFinisher`; the law that a builder produces the packed form of
  the tree it built.
- `hexdump.rs` — the lines of a hex dump.
- `imgdsc.rs` — `Timestamp`, `StringBuf` and `fourcc`.

`app/` holds the demonstration programs: reading trees from JSON and JSON5
with serde and typetag, printing hex dumps, and the conversion of a word
buffer to an aligned byte view.
