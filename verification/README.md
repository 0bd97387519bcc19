# asset_manager

A library for organising game assets — sprite sheets on disk and inside
(possibly nested) zip archives — whose functions are stated by contracts and
proved by Verus, and a small command-line program around it.

The proofs rest on a few trusted items, each a thin wrapper of one outside
call whose contract Verus takes on trust: opening, listing and reading zip
archives (`zip`), compiling and matching regular expressions (`regex`),
decoding images (`image`), and from `std` `str::to_lowercase`,
`Path::parent` and `String::push`. Their doc comments say what each
contract claims of the call.

## Layout

- `src/text.rs`, `src/path.rs`, `src/sorted.rs` — character sequences,
  `/`-separated paths, and the sorted sets and maps the metadata is made of.
- `src/file_ref.rs` — references to files on disk and in archives, and their
  persisted `//`-joined form.
- `src/data.rs` — the persisted metadata: roots, tags, grids, bundles.
- `src/export.rs` — export templates, output planning with conflict
  detection, and export progress.
- `src/grid.rs` — valid grid cell sizes, stepping between them, the walk
  cycle.
- `src/archive.rs` — archive formats, listing and reading zip archives
  (through the `zip` crate), rar header listings.
- `src/browse.rs`, `src/search.rs`, `src/panel.rs` — the decisions of the
  file browser, the name filter and search (regular expressions through the
  `regex` crate), and the detail panel.
- `src/image.rs` — decoding images (through the `image` crate), their
  colour facts, the walk-cycle preview frame.
- `app/` — reading and writing files, the `unrar` crate, the metadata file
  in TOML, background export, and `main`.
- `tests/` — tests of the library on concrete values.
