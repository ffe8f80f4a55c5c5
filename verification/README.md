# kallos

A pure-layout source formatter for Answer Set Programming (clingo `.lp`), written
in Verus: it re-spaces and re-indents a program to one house style and changes
nothing else.

## Layout

- `src/` — the verified library.
  - `cst` — parsing with the tree-sitter clingo grammar and the flat,
    breadth-first tree model the formatter works on.
  - `comments` — attaches every trivia comment to exactly one anchor node.
  - `doc` — the pretty-printing engine: an arena of document nodes, its builder,
    and a work-list renderer with an exact functional model.
  - `emit` — lowering the tree to a document: the per-construct rules, the
    generic assembler, token spacing and comment re-injection; `format`.
  - `equiv` — the `≈` relation between parse trees, its witness, and `verify`.
  - `cli` — the command line's decisions as plain values: arguments, per-file
    decisions and plans, the run state, the summary and the exit severity, the
    selection and order of a directory's files, and the `--diff` text.
- `app/main.rs` — the binary: argument parsing, the directory walk, reading and
  writing files and the standard streams.
- `tests/` — the test suites.

## Proved properties

Among the properties Verus checks:

- every trivia comment is attached exactly once (`comments::attach`);
- the assembler only interposes whitespace: an assembled node's text is its
  parts' text in order, and without a neck its layout is its parts' layout
  (`emit::assemble::assemble`); every construct family is lowered to its
  children's text in source order, each child with its anchored comments
  (`emit::constructs::build`): a node with no comment dangling from it all of
  its children, a binary or unary operation its operands and operator, the
  source file its items and the root's dangling comments where they stand;
- a directive's `=` and keyword, an aggregate's bounds and a statement's
  `[ … ]` tail carry their blanks (`directive_parts`, `aggregate_parts`,
  `statement_parts`);
- the lowered layout (text and blanks, breaks aside) of each construct family
  whose children carry no comment (`emit::constructs::build`): a separated
  sequence lays out exactly its children, each `|` led by a blank; an
  application or an absolute value exactly its children, with no blank; an
  aggregate its children with a blank after the left bound and before the
  right one; a comparison a blank on each side of the relation; a signed atom
  a blank after `not`; a binary operation a blank on each side of the operator
  at the top level, none inside brackets or around `..`; a directive's or a
  block's keyword is followed by a blank; a rule's head is followed by a blank
  and then its neck, as is a conditional literal's head before its `:`; a
  constraint's leading neck is followed by a blank; an `#edge` without a body
  is followed by a blank after its keyword and after each `;`; the source file
  lays out its items, breaks aside, in source order;
- the tree `cst::read_source` returns is exactly the breadth-first model of
  the parser's preorder walk (`cst::source_cst`);
- the renderer only lays out: what it prints, blanks, tabs and newlines aside,
  is the document's text in order (`doc::render::lemma_render_only_lays_out`),
  and its work-list steps equal the document size at every width;
- `≈` is an equivalence, and `first_divergence` finds a witness exactly when
  two trees are not equivalent; `verify_against` accepts a formatting exactly
  when the parser declines the source or both parse and are `≈`;
- the output of `format` is empty or ends in exactly one newline, or else it
  is the input returned unchanged, as it always is when the parser declines
  the input; `decide` puts a byte-order mark back in front of it;
- a source is skipped as a syntax error exactly when its parse carries errors;
- a directory's selected files are the walked files the globs whitelist, each
  once, in `Path` order;
- the exit severity is the maximum over the per-file actions and does not
  depend on their order.
