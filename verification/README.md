# meshlint

Like ESLint, but for 3D models: a mesh linter for STL files with safe
automatic repairs.

## Layout

- `src/` is the verified library. It reads binary and ASCII STL, writes
  binary STL, runs the topological checks (non-manifold edges, boundary
  loops, duplicate and degenerate faces, winding, shells, tiny edges, sliver
  triangles, flat shells, units, SLA cross-sections), applies the repairs
  (welding, degenerate and duplicate face removal, orientation, tiny-shell
  removal) and caps the per-rule output. Every public function states its
  result exactly in its contract.
- Floating-point geometry (areas, volumes, lengths, normals, the weld search
  and the triangle intersection tests) is measured outside the library and
  handed in as IEEE-754 bit patterns; `src/ieee.rs` orders those patterns as
  the hardware does.
- `app/` is the `meshlint` command line tool and the browser entry points:
  argument and config-file handling, file I/O, the floating-point
  measurements and the serialisable report types.
- `tests/` exercises the library on concrete meshes.

Exit codes of the command: `0` no errors, `1` lint errors found, `2` invalid
input, unsupported format or runtime failure.
