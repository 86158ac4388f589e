# openrscad

The core of a programmatic solid modeller, written and proved in Verus: the
modelling language, the geometry that needs no kernel, the export documents, and
the caches between requests.

## Layout

- `src/` is the verified library.
  - Language: `value`, `format`, `ast`, `sem`, `eval`, `calls`, `iterate`,
    `builtins`; the interpreter in `meaning`, `interp`; the bytecode machine in
    `vm`, `vmsim`, `vmproof`, `vmlaw`; the statements in `program`, `splice`,
    `scopes`, `stage`, `play`, `player`, `modules`, `resources`, `viewport`; whole
    programs in `output`; budgets of steps in `budget`, `allowance`.
  - Plane: `planar`, `contours`, `clip`, `flat`, `offset`, `hull2d`, `slice`.
  - Solids: `tessellate`, `faces`, `hull`, `extrude`, `revolve`, `surface`,
    `heightmap`, `vector`.
  - Scenes: `node`, `scene`, `relation`, `runs`, `surfaces`, `patches`, `sources`,
    `solid`, `structured`, `components`, `unionfind`, `edges`, `grouping`.
  - Export: `palette`, `names`, `compiled`, `gltf`, `glb`, `threemf`, `provtext`.
  - Session: `cache`, `blob`, `hash`, `request`, `assemble`, `files`, `pipeline`,
    `artifact`, `diag`, `json`, `base64`, `profile`.
- `tests/` runs the library with real hosts.
- `app/` holds the hosts: floating point, `manifold-rust`, `geo`, `earcutr`,
  files, and the surfaces for browsers and Node.

## Numbers and hosts

A number is carried as the 64 bits of its double-precision encoding. What needs
no arithmetic on it (comparison, sign, equality, order) is decided on the bits
and proved. What does is asked of a host through a trait of which nothing is
promised: `Arithmetic` for the floating-point unit, `Ears` and `Clip` for
outlines, `Geometry` for solids, `Library` for files, fonts and color names. Every
answer is logged, and a contract says: for each reading that agrees with the log,
the result is the one that the specification computes from that reading.

## Programs

`output::eval_program` and its variants run a program. What running means is a
function of the source: `sem` says what expressions come to, `meaning` what calls
come to, `stage` what statements come to, and `play` what modules, children and
imported files come to. Each level of nesting has its own meaning, and calls,
lists of children and files go down one level each, so that everything ends.

A run takes in where the random numbers stand and hands back where they stand after
it. A budget of steps changes nothing as long as it lasts, and a run that is out of
steps says so.
