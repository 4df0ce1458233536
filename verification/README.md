# tidemark

Snapshot a directory tree and diff exactly what changed - no git required.

The crate has two parts.

- `src/` is the library, written in Verus and verified: the manifest model and
  its BLAKE3 tree digest, the diff engine with unambiguous rename detection,
  unified line diffs, the rules of the labeled snapshot store (labels, file
  names, what a save does), ref resolution, the order in which a walked tree is
  recorded, and the decisions of the command line (output format, pagination,
  field selection, `--only`, exit codes, parse-error messages).
- `app/` is the `tidemark` program around it: argument parsing with clap,
  walking the tree with `ignore`, reading and writing files, JSON with serde,
  and colored tables.

Outside crates that the library calls (`blake3`, `similar`, `jiff`) are
reached through a few small trusted wrappers, each documented where it stands.

Modules of `src/`:

| module | what it holds |
| --- | --- |
| `order` | byte order on text, a verified stable merge sort |
| `text` | small string operations |
| `hash` | `blake3:<hex>` digests |
| `manifest` | entries, manifests, the tree digest and its laws |
| `diff` | the diff, its specification and laws, unified line diffs |
| `output` | output format, pagination, field selection |
| `store` | snapshot store rules |
| `refs` | what a ref names |
| `walk` | which walked paths are recorded, in which order |
| `builder` | entries from file contents, timestamps |
| `cli` | the command line's decisions |
| `error` | error kinds |
