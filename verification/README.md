# libtiler

A deterministic binary-split tiling library for editor and terminal layouts,
verified with Verus.

A layout is a binary tree: leaves carry a payload and size limits, splits divide
their rectangle along an axis in proportion to a weight pair. A `Session` adds a
focused leaf, a selected node and a revision counter; solving a session gives a
`Snapshot` with the rectangle of every node, and geometry commands
(navigation, resize) only accept a snapshot of the current revision.

## Layout

- `src/` – the verified library.
  - `geom`, `limits`, `error`, `ids`, `snapshot`: plain data and arithmetic.
  - `tree`, `tree_links`: the node map, its shape model (`Shape`, `has_shape`,
    `tree_ok`) and the structural edits with their well-formedness proofs.
  - `solver`: summaries, the split allocator and the layout solver.
  - `session`, `edit`, `adjust`, `grow`, `navigate`, `preset`: the session
    commands.
  - `nav`, `resize`: neighbour scoring and resize distribution.
- `tests/` – behaviour tests run against the compiled library.
- `app/` – serde-enabled mirrors of the data types and error types with
  `Display` and `std::error::Error`, with conversions to and from the library
  types.

## Proved properties

Besides the contract of every public function, the library proves, among
others: a solved layout tiles its root (`law_solved_partitions`); strict
feasibility is the summary envelope (`law_strict_envelope`); toggling,
mirroring and swapping twice restore the tree (`law_toggle_twice_session`,
`law_mirror_twice_session`, `law_swap_twice_session`, and their map-level
forms); removing a freshly split leaf restores the tree
(`law_split_then_remove_session`); rebalancing twice changes nothing the
second time (`law_rebalance_twice_session`); a preset rebuild keeps the leaves
and is a no-op when repeated with an order-keeping preset
(`law_preset_rebuild`, `law_preset_repeat_session`); and ancestors and subtree
membership agree with the path to the root
(`law_ancestors_are_root_path_tail`, `law_subtree_is_on_root_path`).
