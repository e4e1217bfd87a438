# layerstack

A small composition kernel for layered scene description, written in Verus.

`src/` is the verified library:

- `interner`, `path`: interned tokens and segmented absolute paths with
  stable ids, parsing and display (proved to round-trip), prefix operations
  and the namespace order (proved to be a total order).
- `spec_path`: variant-qualified spec paths (`/A{v=red}B.attr`), parsed and
  displayed.
- `prim_index`: the strength order of opinions (LIVERPS arc order and its
  tie-breakers), proved to be a strict total order.
- `layer_stack`: recursive sublayer gathering; every layer comes before the
  sublayers it pulls in, and no layer is reached again through its own
  sublayers (cycles are cut).
- `dependency_map`: arc and layer-opinion dependency edges, deduplicated by a
  builder, with queries by target prim and by layer.
- `usda`: the line readers of the minimal USDA loader (list-op lines,
  reference and path lists, variant metadata, attribute names, relative prim
  paths, `subLayers` lists), each specified over the characters of its input.
- `prim_defs`: the prim-definition reader of the minimal USDA loader, a
  line-by-line state machine (prim blocks, header and variant-branch
  metadata, attributes, time-sample texts, relationships, brace tracking),
  specified step by step and proved against that specification; records are
  never dropped or reordered, and every record path is absolute.
- `child_order`: child ordering of composed prims: the `reorder
  nameChildren` statement and its chain across a prim's opinions (weakest
  first, after a stable strongest-first sort proved unique), and the authored
  base order of children grouped by layer position; no child is lost or
  invented, and the base order is a permutation of the children; applied to
  every child list of the children index.
- `population`: stage population over the interners: completing a set of
  prims with their ancestors, restricting it by a population mask, and the
  children index of each prim in namespace order (a stable sort); sets of
  path ids are kept in ascending id order in a `BTreeSet`.
- `sorting`: stable sorting of positions under a strict total order; the
  sorted order is unique.
- `compose`: composition steps: the local opinions of each prim (sources,
  authored children, child orders), the variant selections of nested branches,
  remapping paths from a reference target to the referencing prim,
  deactivation (the strongest `active` opinion wins; a deactivated prim's
  whole subtree is pruned from the prims and the children index), and
  instancing (which prims are effective instances and their identity paths,
  stripping local sources below identity paths, keeping only the children
  that non-identity sources introduce, and removing the subtrees of stripped
  children).
- `edges`: the opinions that inherit, specialize, reference and payload
  arcs bring to the populated prims under their destination, read through
  the arc's layer stack and expanded once per edge.
- `expansion`: growing the populated prims across inherit, specialize,
  reference and payload arcs (the places under the destination of the prims
  the arc's stack authors under the source), once per edge.
- `instancing`: stripping every effective instance of a composed stage
  (identity-only children and their subtrees removed, local sources below
  the identity paths dropped), one instance after another.
- `loading`: building a layer of the store from the prim records read from a
  layer file (specifiers and authored children).
- `variants`: filtering each children list by the variant selections of its
  prim (children only unselected variants introduce are dropped).
- `composition`: composing a stage from a root layer (population across
  inherit and specialize arcs, local and arc sources sorted strongest first,
  child order, variant filtering, deactivation, optional dependency edges)
  and the stage's queries (prim stack, children, specifier, field, value,
  dictionary, token and path list resolution, the opinions behind a field,
  dependency lookups).
- `listop`: list operations (explicit, prepend, append, delete) and their
  chaining across opinions, strongest first.
- `store`: prim specs, layers and the in-memory store of layers with the
  shared interners; gathering a layer stack from the store.
- `arcs`: the inherit and specialize targets and variant selections a layer
  stack resolves for a prim, and the prims a stack authors.
- `resolve`: reading opinions back through a prim's sources: flags, the
  strongest value of a field, scalar, list and dictionary resolution.
- `doc`: layer ids, specifiers, scene description values (with an equality
  that compares floats as IEEE numbers) and dictionary combining (stronger entries kept in front, nested dictionaries combined,
  weaker-only keys appended).
- `text`: character-sequence operations (`trim`, `find`, `split`, ...) with
  their specifications.
- `hashed`: the hash tables the library keeps, behind trusted wrappers.

`app/` holds what works on the host or on floating-point values: locating the
fixture workspace, reading layer files, layer time offsets, numeric time
samples, floating-point values and spline evaluation.
