# gdscript_formatter

Lays out GDScript files, and compares the structure of scripts before and after
formatting. The library is written in Verus: what its functions do is stated in
their contracts and proved.

- `tree_reader` reads the trees of `tree_sitter` into plain values
  (`syntax_tree`).
- `formatter` walks such a tree and writes render elements (`renderer`) through
  a writer (`writer`) that keeps track of the nested documents (`document`) they
  stand for. The contract of
  `formatter::build_formatter_intermediate_representation` says which documents
  these are, node kind by node kind.
- `verify_structure` tells whether two trees have the same structure, but for
  the differences that formatting makes.

What holds of layouts is proved in these modules of `formatter`:

- `laws`, `rules` and `regions`, on blank lines, definitions and disabled
  regions, and `document_laws` next to them;
- `provenance`: text comes from the source;
- `completeness`: no token of a script that stays in order gets lost. Scripts
  that are reordered by a plan are left out, and so are regions that start
  inside of a node that does not look for regions;
- `uniqueness`: no byte of a script that stays in order and has no disabled
  regions is written twice;
- `independence`: with disabled regions, reordering makes no difference;
- `trailing_commas`: nor does a comma behind the last of two or more elements of
  a container.

What comparing structures leaves out of account is proved in `structure_laws`.

`app/` holds a program that measures how long the library takes.
