# scs2fbx

Turns vehicle mods of truck simulators (`.scs` archives) into FBX scenes with
textures, and takes their sound out.

- `src/` is the library, verified with Verus: the archive containers, the model
  and definition formats, the choice and arrangement of a vehicle's models, the
  treatment of textures, and the FBX writer. Every function says in its contract
  what it returns; what holds of several functions together stands beside them as
  a public proof function.
- `app/` is the program around it: the window and the command line, files,
  threads, the converter and audio tools, and the arithmetic on coordinates.
- `tests/` runs the library on concrete values.

Floating-point numbers that the library only carries through travel as the bit
patterns of their encoding. What the `flate2` and `zip` crates compute is named in
the contracts, not modelled.
