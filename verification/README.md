# layout_flow

Flows are the interior nodes of a layout tree. This crate holds their data, the questions that can
be asked of them, and what layout does on them: preorder and postorder traversals, changes to the
children, the overflow region, and the construction of display lists. It is written in Verus: each
function carries its contract, and Verus proves it.

- `src/flow.rs`: the classes of flows, `FlowData`, `AnyFlow`, and access to the data and children.
- `src/immutable.rs`: class predicates and the dump of a tree.
- `src/mutable.rs`: the operations that change flows.
- `src/traversal.rs`, `src/overflow.rs`, `src/display_list.rs`: the meaning of these operations.
- `src/traversal_laws.rs`, `src/laws.rs`: laws that hold across them.
- `src/geometry.rs`: app units and rectangles. The rectangle arithmetic is euclid's, called through
  two trusted functions.
- `src/box_iterator.rs`: the walk over shared render boxes, with one trusted function around
  `Rc::clone`.
- `app/`: reflow passes that panic until they are implemented, failing casts, and output.
