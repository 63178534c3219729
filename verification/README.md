# tscn

Lossless parsing, semantic diffing and three-way merging of Godot 4 text
scenes and resources (`.tscn` / `.tres`), written in Verus: every function of
the library carries a contract, and Verus proves the code against it.

## Layout

- `src/` — the verified library.
  - `text`, `error`, `lex`, `value`, `doc`: characters, the tokenizer, the
    value grammar and the lossless document model. `parse_document` accepts
    exactly what the grammar specs accept, and a parsed document replays its
    text character for character.
  - `canon`, `scene`: canonical forms of values and sections, and the identity
    of each section (header, resources, nodes by path, connections, editables).
  - `nodepath`, `check`: resolving `NodePath` values against the node tree,
    and the structural checks built on it.
  - `diff`, `align`: the semantic diff, with renamed and reparented nodes
    reported as moves, and the shared naming a merge puts its three inputs in.
  - `merge`, `report`, `show`: the three-way merge, its conflicts, and how
    values and conflicts are shown to a person.
  - `driver`: the merge driver's decisions (which inputs the semantic merge
    is trusted with, and what becomes of its outcome).
  - `reparse`: why reading a merged text back is deterministic: what the
    node-path walk finds depends only on what a document says.
  - `fallback`, `gitcfg`: the line-based merge used when an input cannot be
    parsed (built on the `similar` crate), and the git attribute rules.
  - `fuzz`: entry points for fuzzing the tokenizer and the parsers.
- `tests/` — tests of the library on concrete inputs.
- `app/` — the `gdmerge` command line: argument handling, files, git, and
  JSON output.

The laws the library proves stand as public proof functions next to the code
they are about: a merge against an unchanged side keeps the other side's
bytes, a self-merge is the identity, merging is deterministic, the merged
file's resource ids stay distinct and ours keep their own, a diff of a scene
against itself is empty, every reported move pairs nodes with the same
contents, canonical forms depend only on what ids resolve to, a quoted string
reads back as itself, a node-path walk lands only on declared nodes, and what
a report shows of a value is one line ending in an elision note when cut,
within the bound except where the note of a kept id's cut cannot fit. For
side independence, what is proved is that each entity conflicts, and the
number of entities that conflict, whichever branch is called ours, at the
level of the merge's plan; the whole merge, with its renames and its re-read
of the merged text, is not covered by it.
