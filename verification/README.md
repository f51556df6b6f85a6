# brepper

Topological core of an STL-to-B-Rep converter, written in Verus: every function in
`src/` carries a contract that Verus proves.

## Library (`src/`)

- `stage` — pipeline stages (`2.3`, `2` = all of stage 2), stage parsing, units, verbosity.
- `topology` — mesh validation: edge uses, open / non-manifold / inconsistently oriented
  edges, per-edge neighbors, connected shells, closed shells, the validation verdict.
- `fusion` — fusing coplanar triangle pairs into quads (greedy matching, quad construction,
  neighbor rewiring, compaction).
- `growth` — breadth-first region growing of a surface hypothesis over face neighbors.
- `selection` — surface selection bookkeeping, hypothesis face lists, vertex-to-face map.
- `adjacency` — face-to-surface map, boundary edges between surfaces grouped by surface
  pair, corner vertices where three or more surfaces meet.
- `chains` — chaining boundary edges into vertex paths.
- `reconstruct` — reconstructed edges, vertices and faces, each face's edges ordered around
  its boundary.
- `wires` — grouping a face's edges into wires.
- `sorted` — uniqueness of strictly sorted sequences.

Geometric decisions (normals, areas, plane fits, coplanarity) are inputs to these functions.

## Program (`app/`)

The `brepper` command: argument parsing, STL input, vertex welding and the floating-point
geometry, calling the library for every topological step up to the face adjacency.
Cylinder, sphere, ruled-surface and NURBS hypotheses (stages 2.2 to 2.5) and the stages
after 3.1, which need the OpenCASCADE kernel, are not carried; the program says so when a
run reaches them.
