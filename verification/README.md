# ty_ide

The logic behind an editor's view of python and basedpython sources, written and proved in Verus.

The library works on plain values: a syntax tree of uniform nodes, the tokens of a file, and what a
semantic index and a type checker have to say about the nodes, looked up by a node's number. From
these it answers what an editor asks:

- `refactor` — which refactorings a selection allows, and the edits of each: extracting a variable,
  a constant or a function, inlining a variable, adding a return annotation, and turning a class
  into a data class or back. Where one does not apply it says why.
- `module_rename` — the edits that keep a project's imports, and the uses of what they bind,
  pointing at modules whose files have moved, and the imports that no edit can keep.
- `syntax_outline` — the statements of a file with their clauses, its strings with their escapes
  and interpolations, and the keywords that belong together with the one under the cursor.
- `super_members` — which members of its superclasses each member of a class overrides.
- `inlay_hints` — what a file leaves unwritten, where it would be written, and the edits that would
  write it.

The remaining modules hold what these share: `node`, `tokens`, `source`, `strings`, `text_size`,
`edit`, `lookup`, `name_set`, `module_name`, `navigation` and `semantics`.

Every function states what it returns in terms of spec functions over `Seq`, `Set` and `Map`. The
proof functions whose names start with `law_` state what holds of the library as a whole: that an
inlined read still sees the value it saw, that no import of a moved module is left behind without
being reported, that a hint is only shown when the settings ask for it. The functions marked
`external_body` call the crates the library depends on, and say in their documentation what is
taken on trust.

`app` holds what needs those crates' own types: parsing a file into the library's tree and tokens,
and handing edits back. It asks the library only what its contracts admit.
