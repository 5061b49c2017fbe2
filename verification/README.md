# sley-odb

The object database of a git implementation, as a library whose every function
is verified: what it promises is stated in `requires` and `ensures` clauses and
proved by Verus.

## Layout

- `src/` is the library. It decides: which objects a walk reaches, what a pack, a
  multi-pack index or a bitmap holds, where an object is looked for and in what
  order, what a repack writes, keeps and removes. It never touches a file.
- `app/` is the file-backed database around it: directories, files, streams and
  locks. It hands the library plain values and does what the plans ask for. The
  encodings of packs and indexes come in through its `Formats` trait.
- `tests/` runs the library on concrete values.

## The library

| Area | Modules |
| --- | --- |
| Identity | `object_id`, `hex_id`, `object`, `error`, `oid_map`, `key_map`, `order`, `text`, `text_file` |
| Loose objects | `loose`, `loose_read`, `loose_cache`, `zlib` |
| Lookup | `lookup`, `packed_read`, `pack_order`, `pack_dir`, `registry`, `presence`, `lru`, `alternates`, `database` |
| Packs | `pack_file`, `pack_scan`, `pack_assemble`, `pack_install`, `install`, `unpack`, `raw_pack`, `quarantine` |
| Walks | `walk`, `walk_laws`, `reachability`, `transfer`, `filter`, `sparse` |
| Bitmaps | `bitset`, `bitmap_walk`, `bitmap`, `bitmap_load`, `bitmap_build`, `bitmap_laws`, `lineage` |
| Multi-pack indexes | `midx`, `midx_layer` |
| Repacks | `repack`, `reachable_repack`, `loose_repack`, `cruft`, `cruft_split`, `cruft_repack`, `object_times`, `geometry`, `geometry_repack`, `geometry_midx`, `install_plan`, `repack_install`, `gc` |

Statements about several functions at once are proof functions whose names begin
with `law_`.

## What is trusted

The digests of `sha1` and `sha2`, the streams of `flate2` (with its `zlib-rs`
backend) and a few functions of the standard library are called through small
functions whose contracts Verus does not check. Each says in its comment what is
claimed of the function it calls.
