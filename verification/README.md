# frfs

A read-only file system packed into a single archive file, verified with Verus.

An archive is: the start magic number (7 bytes), the length of the serialized
header (8 bytes, big endian), the header (the directory tree with each file's
size and offset), the bytes of all files one after the other, the archive's
total length (8 bytes, big endian) and the end magic number (7 bytes). An
archive may sit at the end of a larger file, so it is located from the end.

## Layout

- `src/` — the verified library:
  - `path.rs`: lexical path normalization (`.`/`..`), joining, final names;
  - `tree.rs`: the directory tree, lookups by path, inserting by name;
  - `scan.rs`: building a tree from a walk of a directory on disk;
  - `pack.rs`: laying out the files back to back in packing order;
  - `format.rs`: big-endian lengths, magic numbers, framing an archive and
    the steps that locate the header when loading;
  - `file.rs`: a file inside an archive: its window and cursor, seeking and
    reading positions;
  - `fs.rs`: the loaded file system: open, metadata, listing;
  - `builder.rs`: building an archive;
  - `unpack.rs`: the steps that unpack an archive's directory to disk;
  - `meta.rs`, `error.rs`: metadata, directory entries, errors.
- `app/` — the I/O around it: reading and seeking the archive's file,
  walking and reading the directory to pack, (de)serializing the header with
  bincode, the `vfs` file system and the command line.
- `tests/` — tests of the library on concrete values.
