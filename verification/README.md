# sysy

System designs as data: a typed model of components, containers, edges and
notes, kept in one JSON file, edited through a command line and shown in a
viewer.

`src/` is the library, verified with Verus:

- `model`, `id_map`, `text`, `order`: the design model, maps kept in id
  order, string comparison, and the stable order of records by id.
- `validation`, `ancestry`: every problem that keeps a design from being
  saved, and why a valid design's container nesting has no cycle.
- `edit`: adding, changing, listing and removing elements; an edit is
  committed only when the whole design stays valid.
- `document`, `messages`, `error`: the canonical document a design is saved
  as, reading a document's sections back with every problem reported, and
  the text of each problem and error.
- `round_trip`, `reorder`: what reading a saved design gives back, and why
  the order of a design's elements matters neither to its validity, nor to
  its document, nor to its automatic layout.
- `layers`, `layer_order`: the layered graph behind the automatic layout
  (vertices, arcs, cycle breaking, longest-path layers) and the order of the
  vertices within a layer, which keeps each container's vertices together.
- `sizes`, `scene`, `display`, `interaction`, `cli`: what the viewer and the
  command line decide without geometry: element sizes, paint order, parallel
  edge fan-out, hover highlights, detail fields, drag targets, merging and
  reconciling positions, which file-watch events concern the design and
  when they have settled (holding them during a drag), and the text of
  `sysy show`.

`app/` is the `sysy` program around the library: argument parsing, file
input and output, JSON encoding, the file watch, and the geometry of the
layout and the viewer, which works in binary64 coordinates.

`tests/` exercises the library from outside.
