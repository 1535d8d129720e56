# cjson

A JSON library written in Verus: parsing, printing and editing JSON trees,
JSON pointers, JSON patches and merge patches. Every function in `src/`
carries a contract that Verus proves.

## The value model

A node (`types::cJSON`) holds its children in a `Vec`, its type and flags in
`type_`, its string value, its key, and its number as the bit pattern of an
IEEE-754 double (`valuedouble`) together with the clamped integer view
(`valueint`). Its view (`JsonValue`) is the same tree over `Seq`s; the
contracts are stated over it.

Node identity is replaced by position: a node is named by the path of child
indices that leads to it (`cJSON_DetachItemViaPointer`,
`cJSONUtils_FindPointerFromObjectTo`), and references are copies that carry the
reference flag. The position of the last parse error is kept in an
`ErrorState` that the parse functions are given.

## Layout

- `src/types.rs`, `src/keys.rs`: the node type, its view, key comparison.
- `src/tree.rs`: creating, reading and changing trees.
- `src/number.rs`, `src/string.rs`, `src/parse.rs`: reading JSON text.
- `src/print.rs`, `src/minify.rs`: writing it and stripping it.
- `src/compare.rs`: comparing two values.
- `src/pointer.rs`, `src/sort.rs`, `src/patch.rs`, `src/merge_patch.rs`: JSON
  pointers, sorted objects, JSON patches and merge patches.
- `src/roundtrip.rs`: printing and parsing back, and minifying printed text.
- `app/lib.rs`: what needs floating point or process-wide state: reading and
  writing the text of numbers, the double-valued entry points, the shared
  error position, and the number comparison that the comparison and patch
  functions are given.

Number literals are checked and located by the parser; their values are
supplied afterwards (`parse::fill_numbers`). The printer writes number texts
that it is handed in the order that `print::collect_numbers` gives.
