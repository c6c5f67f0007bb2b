# rge_core

Verified core of three engine crates: a content-addressed asset cache, the
playback decisions of the audio layer, and the combinatorial side of the CAD
kernel. The library in `src/` is written in Verus and proved against its
contracts; `app/` holds the code that talks to the filesystem, the process
environment and the audio engine, and the floating-point geometry.

Modules of `src/`:

- `asset_id`, `layout`, `cache`, `recency`, `local`, `index_file`,
  `dependency`, `error`, `text`: content ids, on-disk layout, the in-memory
  cache, the recency index of the on-disk cache and its file format, and the
  asset dependency graph.
- `audio`: entity ids, playback states and transitions, manager errors, and
  the scheduling plugin's per-tick bookkeeping.
- `operators`, `params`, `box_edges`, `chamfer`, `mesh`, `ring_mesh`, `weld`,
  `tess_cache`, `checkpoints`: operator vocabulary and profile validation,
  the parametric operators (their admissible parameters, arities and
  structural hashes), the edges and corners of a box and the index buffer
  of chamfering them, index buffers and face labels, index buffers of
  extrusions, sweeps and revolutions, welding of
  polygon soups into indexed meshes, the tessellation cache, and
  checkpointed graph editing.
