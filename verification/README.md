# m4a_atmos_to_mp4_vid_fuse

A read-only FUSE filesystem that exposes Dolby Atmos (E-AC-3 JOC) `.m4a`
files of a source tree as `.mkv` files, generating each `.mkv` (a still
image plus the copied audio) with `ffmpeg` on first access and caching it.

The logic is a Verus library under `src/`, with its contracts proved:

- `path`: paths as component sequences, with their text, following
  `std::path` (parsing, rendering, prefixes, stems, extensions), and the law
  that parsing the text of a relative path of names gives it back.
- `order`: the order of names and of paths (`Path::cmp`).
- `json`, `media`: the JSON report of `ffprobe`, parsed by `serde_json`, and
  the test for an E-AC-3 stream with an Atmos or JOC marker; the `.m4a` test,
  virtual paths and numbered names for clashes.
- `scan`: indexing a walked source tree: which files are probed and kept,
  under which virtual paths, which failures end the scan, and the order of
  the result.
- `fs`: the inode tree, lookups, listings and attributes, with the laws
  that, when no virtual path lies strictly inside another, every virtual
  path is served by the first item with that path and every proper prefix
  of it is a directory, and that listings are in name order.
- `transcode`: cache keys (SHA-256 through `sha2`), cached and scratch
  paths, `ffmpeg` command lines, and the generation of a cached file as a
  state machine whose every path removes its scratch files.
- `contention`: two generations of one item that share the key's lock, with
  the law that, however their steps interleave in a world where every action
  succeeds, the mux command runs once and both hand back the cached path.
- `process`: when to stop waiting for a child process and how long to pause
  between polls.
- `config`, `text`: the settings of a run and character helpers.

`app/` is the program around it: the command line, the walk of the source
tree, running `ffprobe` and `ffmpeg`, the per-key locks, and the FUSE
callbacks, each performing what the library decides.
