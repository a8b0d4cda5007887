# stix_unpacker

A verified library for unpacking InstallShield 3.x / The Stirling Compressor
archives, with the `stix-unpacker` command-line program around it.

The library under `src/` is written in Verus. Its functions carry contracts
that Verus proves, except the few marked `#[verifier::external_body]`: small
wrappers around std calls (`String::push`, `str::to_lowercase`,
`String::from_utf8`, `PathBuf::clone` and `Path`'s `join`, `parent`,
`ancestors` and `to_string_lossy`), whose contracts are trusted, not proved.
The modules:

- `explode`: PKWARE DCL decompression, stated as a specification over the bits
  of a stream (`inflate`) and a decoder proved against it.
- `archive`: file-name code pages, safe archive paths, the catalog of a volume
  (`read_catalog`), the map of a multi-volume archive (`Archive::from_volumes`),
  where an entry's compressed bytes lie (`packed_segments`) and their
  decompression (`unpack`); finding the first volume of an input.
- `discovery`: which files are volumes of which archive; a scan over the files
  of a directory tree (`Discovery`) that groups numbered volumes by base name
  and orders them by number.
- `output`: merging directory spellings across archives, and the output plan
  that refuses conflicting paths before anything is written.
- `cli`: the command line and the counts the program prints.
- `order`, `text`, `paths`, `error`: names and their order, characters and
  strings, calls into std's `Path`, and the errors.

Beside the contracts, public proof functions state laws that span calls:
decoding reads nothing after the end marker and accepts a stream for one
size only (`explode`); where volumes lie does not change what a scan
yields, nor does finding two files in the other order (two single-file
archives where their names differ), and a scan for std* archives yields the
std* part of a full scan without looking at other files (`discovery`);
merged directories that are equal when lower-cased are spelled the same, and
merging twice gives what merging once gives (`output`).

`app/main.rs` is the program: it reads the file system and the command line,
hands plain values to the library, prints, and writes the extracted files.
