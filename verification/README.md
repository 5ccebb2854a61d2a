# galaw

Reads URDF robot descriptions and computes forward kinematics.

The library (`src/`, verified with Verus) turns a URDF document into a
`GalawModel`:

- `xml.rs` — the XML tree as plain nodes (read by `roxmltree`), and lookups of
  attributes and child elements;
- `parser.rs` — links and joints read from their elements, in document order,
  with one error variant per missing tag or attribute;
- `tree.rs` — joints ordered depth-first from the root link, link indices and
  command slots filled in, and the proofs about that order (each subtree one
  consecutive block);
- `types.rs`, `error.rs`, `utils.rs` — the model, its errors, and the splitting
  of vector attributes;
- `kinematics.rs` — the command vector handed to each joint;
- `laws.rs` — properties of every parsed model (name lookups, exact when
  names are distinct; command slots; each joint placed once, siblings in
  declaration order; depth-first pre-order, each branch one consecutive
  block; link names of each joint independent of the order of declaration).

Numbers stay as the text the file holds: `app/` converts them to `f64`,
builds `nalgebra` transforms and runs the forward kinematics, reads files,
and holds the error types with their `thiserror` messages.
