# tree3

Explores TREE(k) sequences: sequences of rooted trees labelled in `1..=k`
where the tree at position `i` has at most `i` nodes and no tree embeds
(homeomorphically, with equal labels) into a later one.

The library in `src/` is verified with Verus:

- `tree`, `subtree`: arena trees, their well-formedness and subtree walks.
- `canonical`, `order`, `forms`, `form_unique`: canonical string forms, the
  text order they are sorted in, and the fact that a form determines a tree up
  to the order of children.
- `embed_spec`, `embedding`, `fingerprint`: what an embedding is, the checker
  that decides it, and cheap necessary conditions for it.
- `generator`, `candidate_order`: enumeration of all trees by size, the greedy
  and random sequence generators and the exhaustive search for a longest
  sequence.
- `svg_text`, `gpu_sweep`, `cli`: text escaping and colours for drawings, the
  flat encoding of trees and fingerprints, and the command-line options.

`app/` holds the command-line program: argument parsing, the SVG layout,
file output and the JSON export. `tests/` holds the tests.
