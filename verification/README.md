# pomme

The verified core of a voxel game client and its launcher, written in Verus.

`src/` is the library, every function proved against its contract:

- `greedy` — greedy meshing of a padded voxel chunk: face culling into bit
  masks (`greedy/cull.rs`), per-vertex ambient occlusion (`greedy/ao.rs`),
  and merging of equal faces into quads (`greedy/merge.rs`), with the index
  geometry in `greedy/geometry.rs` and bit lemmas in `bitmask.rs`.
- `block_ao` — per-vertex AO levels of a face.
- `atlas` — shelf packing of textures into one atlas, the choice of atlas
  size, the ordering of textures, and the atlas pixels.
- `textures` — fallback textures, mirrored panorama faces, the choice
  between the panorama cubemap and its fallback, the cubemap staging
  buffer, texture asset paths.
- `chat` — message normalisation, the bounded message log and the input
  line with command completion.
- `friends` — the friends service's types, error messages and the values
  it returns.
- `sounds` — sound asset keys, the choice of sound variants, and the
  sound events of a `sounds.json` text, parsed one level at a time with
  `serde_json`.
- `keys` — what key presses, mouse input and frame updates do to the
  client's phase and in-game flags, what resuming the application does,
  and what the window loop must do.
- `dirty` — which chunk meshes a changed block makes stale.
- `interaction` — the arm swing timer, what starting to break a block
  requests, and the block changes predicted until the server
  acknowledges them.
- `text` — string helpers shared by the modules above.

`tests/` runs the library on concrete values. `app/` holds what the
library leaves out: HTTP requests and serde forms for the friends service,
reading `sounds.json` and its volumes, and the floating-point parts of rendering and chat
layout.
