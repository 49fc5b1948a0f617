# dex_parser

Reading, rewriting and building DEX (Dalvik Executable) images. Every function of the
library carries a contract that Verus checks. `DexBuilder::finish` states when it
succeeds, its header, checksum and signature, the `string_ids` and `type_ids` tables,
and the whole data section (string data, parameter lists, code items, interface lists,
class data, static values, annotations) as functions of the builder's pools and
classes; the `proto_ids`, `field_ids`, `method_ids` and `class_defs` tables are stated by
their sizes. `DexSlicer::slice_class` carries the same layout for the sliced image, and
says for which reason it stops when the class is there and readable.

## Layout

- `src/leb128.rs` — LEB128 reads and writes, little-endian words.
- `src/text.rs` — character helpers and the calls into `std` that text handling needs.
- `src/dex/header.rs`, `file.rs`, `raw.rs`, `strings.rs`, `items.rs`, `helper.rs` — the
  header, the id tables, MUTF-8 strings, and member references by name.
- `src/dex/code_item.rs`, `class_data.rs`, `debug_info.rs`, `encoded_value.rs`,
  `annotations.rs`, `literal.rs`, `value_literal.rs`, `value_format.rs` — the items of
  the data section and their text forms.
- `src/dex/write.rs` — patching instruction arrays in place or with a size change, and
  filling in checksum and signature.
- `src/dex/pools.rs`, `ordering.rs`, `builder.rs` — sorted string pools, stable ordering
  by index keys, and `DexBuilder`, which lays out a complete image.
- `src/dex/slice.rs` — `DexSlicer`, which copies one class into an image of its own.
- `src/dex/fastref/` — the fast reference finder over instruction bytes, and the string
  search with the string data layout it relies on.
- `src/multidex.rs` — several images loaded in `classesN.dex` order.
- `src/apk.rs` — the `classes*.dex` entries of an APK held in memory, read through the
  `zip` crate.
- `app/` — the command-line programs: argument handling, reading files and
  directories, printing, and the float parts of value literals.

Instruction widths and the meaning of each opcode are passed in as tables (`widths`
for the reference finder, `OpcodeInfo` for the slicer).
