# dns_parser

A DNS message wire-format codec (RFC 1035 and the record types of RFC 2782,
3596, 4034, 5155, 6844/8659, 6891 and 7830), verified with Verus.

- `src/` is the library. Each decoder is specified by a spec function over
  byte sequences (`spec_parse_name`, `spec_parse_record`, `spec_parse_message`,
  ...) and each encoder by the bytes it appends (`spec_write_name`,
  `spec_write_record`, `spec_message_bytes`, ...).
- `src/roundtrip.rs`, `src/compress.rs`, `src/edns.rs` and the `lemma_*`
  functions in `src/types.rs`, `src/header.rs`, `src/question.rs` and
  `src/name.rs` prove what the codec promises as a whole: EDNS values read
  back as set, padding reaches its target, and what is written reads back as
  itself under the conditions each lemma states: codes and classes are in
  canonical form, names take at most 255 wire bytes, every recorded position
  below 0x4000 reads back as its key within the decoder's 100 pointers, each
  compression pointer the writer emits targets such a position reachable
  within 99 pointers, and RDATA fits its 16-bit length.
- `app/` adapts the library to `std::net` addresses and `Display`, and holds
  the EDNS padding walk-through that prints to stdout.
- `tests/` exercises the library on concrete messages.
