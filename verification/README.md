# intertense

Multidimensional tensors over a flat buffer, verified with Verus.

A `Layout` holds the dims and strides that place a tensor's components in a buffer. A
component's offset is the sum over axes of its normalized coordinate (counted from the far end
when the stride is negative) times the stride's magnitude; coordinates may be negative, counting
back from the end of their axis. `Tens` owns a buffer and a layout, `Tensor` is the same with a
mutably valid (non-aliasing) layout, and `View`, `ViewRef` and `ViewMut` borrow or share one.

Layout of the crate:

- `src/position.rs`: positions, stepping them in last-axis-fastest order (mixed-radix
  arithmetic with carries), offsets, and `PositionIter`.
- `src/error.rs`: error kinds and the layout checks (counts, buffer lengths, aliasing).
- `src/layout.rs`: `Layout`, its reshaping operations and slicing, and laws on how flipping and
  swapping axes move components.
- `src/tensor.rs`, `src/view.rs`: owned tensors and views.
- `src/match_tensor.rs`, `src/xmatch.rs`, `src/sheet_ops.rs`: binary search over positions,
  hole filling, arg max, windows compared to a template, fuzzy string search, and
  spreadsheet-style lookups.
- `src/grid.rs`: tensors from sheets of columns of cells.
- `src/text.rs`: decimal text for error messages.
- `app/`: serde forms, conversions to burn, ndarray and image, spreadsheet reading, and the
  floating-point table matching built on `compare_subtensors`.

Every function in `src/` states its behaviour in `requires`/`ensures`, and all but seven are
proved by Verus. The seven are small `#[verifier::external_body]` wrappers around single calls
whose contracts are taken as given: `Vec::capacity`, `Rc::clone`, `slice::from_ref`,
`slice::from_mut`, `String::push_str`, `String::push`, and b-k-tree's Levenshtein distance.
The `law_*` proof functions state properties that span several calls.
