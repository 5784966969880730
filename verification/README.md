# ferrite_core

The verified core of a markdown editor with native Mermaid diagrams.

- `src/` is the library, written in Verus: every function carries a
  contract and is proved against it.
  - `text` — character-sequence operations (`trim`, `lines`, `find`, ...)
    stated over `Seq<char>`.
  - `markdown` — the markdown tree built from comrak's parse, block-quote
    merging, frontmatter line offsets, and table-of-contents generation,
    insertion and removal.
  - `markdown::mermaid` — parsers for flowcharts, sequence, state, class,
    ER, Gantt, git, timeline, journey and mindmap diagrams, the frontmatter
    block, the choice of parser, the diagram cache, the layer assignment
    of the flowchart layout (back edges by depth-first search, longest-path
    layers, subgraph clustering, layer lists), and the columns of a state
    diagram level.
  - `path_utils`, `single_instance`, `about`, `platform` — path
    normalization, the single-instance protocol's messages, the help
    panel's data.
- `app/` holds what Verus does not take: YAML reading, numbers with
  fractions, text measurement, the placement of flowchart nodes on the
  verified layers, and the single-instance files and sockets.
- `tests/` exercises the library on concrete inputs.
