# json_joy_core

A JSON CRDT core written in Verus: the binary codecs of logical clocks,
patches and models, the runtime node graph that patches are applied to, JSON
Pointer handling, and text, binary and line diffs. Verus checks the
functions under `src/` against their contracts; the calls into `ciborium`,
`serde_json`, `base64`, `rand` and a few std functions stand behind trusted
wrappers and specifications, whose contracts are taken as given.

Layout:

- `src/crdt_binary.rs`, `src/patch_clock_codec.rs`: variable-length integers
  and clock tables, with round-trip lemmas.
- `src/patch.rs`, `src/patch_builder.rs`, `src/cbor.rs`, `src/cbor_enc.rs`:
  the patch format, its decoder and encoder, and the proof that the bytes of
  operations that read back (`patch_reads_back`: JSON constants and object
  keys whose CBOR `ciborium` reads back, lengths and identifiers that fit)
  decode into those operations.
- `src/patch_compact_codec.rs`, `src/patch_verbose_codec.rs`,
  `src/patch_compact_binary_codec.rs`, `src/patch_log.rs`,
  `src/patch_compaction.rs`: the JSON forms of patches, their CBOR form, the
  patch log and the joining of patches.
- `src/codec_indexed_binary.rs`: the indexed form of a model.
- `src/codec_sidecar_binary.rs`: the sidecar form of a model (a CBOR view
  beside node metadata) and the model it describes.
- `src/model.rs`: the JSON view of a model binary.
- `src/model_runtime/`: the runtime graph, the application of operations,
  graph decoding, lookups and the view of the graph.
- `src/json_pointer.rs`, `src/model_api.rs`: paths into a view.
- `src/util_diff/`: text diffs (Myers bisection with cleanup), binary and
  line diffs; a diff's source and destination texts are its inputs (for
  the caret edit, on texts without characters beyond U+FFFF).
- `app/`: conversions to and from `serde_json`, callback-style application of
  patches, and error messages.
- `tests/`: executable tests.
