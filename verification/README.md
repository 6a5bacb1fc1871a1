# raycaster

A voxel world viewer. Models (OBJ with MTL materials, or GLB) are turned into
voxels, the voxels are stored chunk by chunk as sparse voxel octrees, and the
world is drawn by ray casting on the GPU. Worlds can be saved and loaded.

## Layout

- `src/` is the library, written in Verus; every function in it is verified
  against its contract, except the few marked `#[verifier::external_body]`:
  those call std or `flate2`, and their contracts are trusted (each one's
  doc comment says what it claims of the outside code).
  - `builder.rs`: cutting a voxel grid into 32x32x32 chunks, compressing a
    chunk into an octree (a mipmap pyramid, written out breadth first), and
    packing a world into one GPU buffer. The contracts state that an octree
    gives back every voxel it was built from, and that it is pruned.
  - `octree.rs`: the node word format (`0xCCLLOOOO`) and how a voxel is read
    out of an octree.
  - `merge.rs`: merging one chunk's octree into another's; the other chunk's
    voxels win wherever it has one. A merge is refused where an octree is
    malformed, or where the merged octree would grow past what the 16-bit
    pointers of its node words reach (the growth is worked out exactly
    before anything is written).
  - `chunk_map.rs`: the chunks of a world by position.
  - `file_parser.rs`, `text.rs`: reading the lines of OBJ and MTL files, face
    corners, numbers, words and file extensions.
  - `file_handler.rs`, `error.rs`: which world files are accepted, their
    gzip compression (through `flate2`; what is compressed loads back
    unchanged), how the chunks of a loaded file form a world, and the error
    messages.
  - `palette.rs`, `cli.rs`, `input.rs`, `worldgen.rs`: palette indices of
    colors, commands typed at the prompt (and which colors a color change
    names), the keys held down, and terrain columns.
- `tests/` runs the library on concrete values.
- `app/` is the program around it: the window and the GPU, file input and
  output, and everything computed in floating point (the camera, ray casting
  on the CPU, voxelizing triangles, noise for terrain).

The compute shader is read at run time from `shader.wgsl` next to the
program.
