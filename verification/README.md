# buffa (verified core)

Protobuf wire codec for `map<K, V>` fields and the import registry used when
emitting generated Rust code, written in Verus with machine-checked
contracts.

- `src/encoding.rs`, `src/types.rs`, `src/error.rs`: varints, tags, fixed-width
  and length-delimited scalars, skipping unknown fields; each encoder is
  proved to round-trip through its decoder.
- `src/message.rs`: the `Message` and `Enumeration` traits implemented by
  generated code, the two-pass `SizeCache`, open-enum values.
- `src/proto_map.rs`: the map type generated map fields hold (distinct keys,
  insertion order kept).
- `src/map_codec.rs`: per-type map codecs and the field helpers
  (`field_len`, `write_field`, `message_field_len`, `write_message_field`,
  `merge_entry`), with the size/write agreement and decode-of-encode laws.
- `src/imports.rs` and `src/imports/`: fully qualified prelude paths and the
  per-scope `use` registry (`ScopeImports`), with its invariant,
  idempotence and path-restoration laws. Token streams are
  `proc_macro2::TokenStream`, modelled by their sequence of tokens.

`tests/` runs the library on concrete inputs.
