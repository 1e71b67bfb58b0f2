# stl_thumb

Loading of 3D models (STL, OBJ, 3MF and STEP) into triangle meshes for thumbnails, with the
settings of the thumbnailer.

- `src/` is the library, proved with Verus. Only the small functions that call other crates are
  trusted: each says above its contract what it takes from the crate's own documentation or source.
  - `mesh` holds meshes, the box around them, and the STL and OBJ loaders.
  - `three_mf` reads 3MF packages: the archive, the XML, the objects and where they are placed.
  - `step` reads STEP files: the entities, the assembly structure and the shells that it places.
  - `load` picks the loader by the name of the file.
  - `config` and `files` hold the settings and what file names say.
- `app/` is ordinary Rust around the library: files, the command line, and floating-point
  geometry, which the library takes as functions.
- `tests/` runs the library together with the crates that it calls.

Single-precision numbers are bit patterns in the library, and the real numbers of 3MF files are
texts that the standard library can read.
