# kirin

Visual and semantic diff reports for KiCAD projects between two git
revisions, as a self-contained static page.

The decisions the report rests on are a library verified with Verus:

- `src/tree.rs`: which projects, schematics, boards and library files a
  revision holds, and which of them changed between two revisions.
- `src/pages.rs`: the pages to render (schematic sheets, board layers,
  library footprints and symbol units), their order and file names, and
  where a change sits on a page image.
- `src/kicad.rs`: page names from exported file names, layer order, the
  normalisation that tells a real image change from a re-export, and
  which pages a report keeps.
- `src/netlist.rs`: reading an exported netlist.
- `src/semantic.rs` and `src/semantic/`: the parts of schematic sheets and
  boards, built from the symbols, sheet blocks and footprints that the
  file parser in `app/` hands over (the library symbols and the symbol
  instances it reads from a sheet's text itself), the walk over a sheet
  hierarchy, the part diff (added, removed, renamed, re-placed, value,
  property, library, move and side-flip facts), the connectivity diff
  (nets matched by their pins, not their names) and the laws they keep.
- `src/sidebar.rs`: the sidebar tree of pages, parts and changes, with
  its ordering and summaries.
- `src/template.rs`, `src/svg.rs`: the viewer's data file, escaping, the
  extent an SVG declares, and the list of images to minify.

`app/` is the program around it: argument handling, git access, running
`kicad-cli`, reading and writing files, parsing schematic and board files
(the parser gives lengths and angles as floats, converted there to whole
nanometres and billionths of a degree), and minifying the SVGs.

Every public function of the library states its result in its contract;
the `law_*` proof functions state what holds across calls and inputs.
