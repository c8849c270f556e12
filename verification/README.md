# rustytree

A reader for Zarr v3 hierarchies, for use as an xarray `DataTree` backend.
It opens local directories, `s3://` URLs and icechunk sessions, walks every
group below a path without reading chunk data, and hands out array handles
that read chunks when they are asked for.

The library in `src/` is verified with [Verus](https://github.com/verus-lang/verus):

- `url`, `store`, `icechunk_store`: what a path or URL means, which storage
  options are taken, how a local directory or the bytes of a session are
  opened.
- `glob`: the `group=` pattern as a predicate that prunes the walk and never
  loses a match.
- `walk`, `snapshot`: the groups that a walk shows, their order, the arrays in
  each, and which values are read ahead of use.
- `node`, `attrs`, `zarr`: what a group or array is shown as.
- `metadata`: which sizes and fill values an array document may declare.
- `array`, `dtype_dispatch`: checking a read request, widening it to whole
  chunks, cutting the result, and the names of data types.
- `py_credentials`: when credentials that travel with a session are refreshed.
- `error`: messages, and the Python exception that each error becomes.
- `text`, `ordered`: texts and ordered tables.

Calls into `zarrs`, `icechunk` and `serde_json` go through small functions marked
`external_body`; their doc comments say what is claimed of the function behind
them.

`app/` is the Python extension module: the I/O, the async runtime and the
marshalling around the library. `tests/` holds the tests of the library.

## Dependencies

`Cargo.toml` names four sub-crates of `icechunk` that no code here uses. `icechunk`
asks for them in a range, which later versions meet as well; they are pinned so
that all of `icechunk` is of one version, the one whose session bytes are read.

The features `s3` and `object-store-s3` of `icechunk` are off. They need the
client libraries of AWS, some eighty packages, and the second does not build
without the first. So the bytes of a session whose storage is on S3 are refused,
as bytes that hold no session are, with a `ValueError`; sessions on the local
filesystem, in memory, over HTTP, on GCS and on Azure are read. A program that
links `icechunk` with these two features reads those on S3 too, with no change to
the library. `s3://` URLs do not go through `icechunk` and are opened.

Of the codecs of `zarrs`, those that are on by default are on here (`blosc`,
`crc32c`, `gzip`, `sharding`, `transpose`, `zstd`), and `zlib` besides.
