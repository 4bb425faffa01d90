# lehopt

Building blocks of a linear and mixed-integer programming solver.

- `src/` is the verified library:
  - `util::avl_tree`: an array-backed AVL tree with lazy deletion and
    compaction, modelled as the sequence of its items in key order
    (`util::avl_shape` holds the ghost shape of the tree and its lemmas);
  - `util::sort`: heap sort of two vectors by a key of their pairs;
  - `util::sorted_list_ops`: the difference of two lists sorted by key;
  - `util` itself: index complements and powers of an integer;
  - `primitives::integer`: the integer traits the rest is generic over;
  - `primitives::matrix::csc_structure`: the storage of a compressed sparse
    column matrix with its invariants, and the operations on it that only
    move entries (construction, appending and removing rows and columns,
    column submatrices);
  - `constr`: the integer-only parts of the LP and MILP model types, and the
    line grammar of MPS files (sections, integer markers, row, coefficient,
    right-hand side, range and bound records, numbers kept as text).
- `app/` holds the floating-point side: scalars, vectors, the arithmetic of
  sparse matrices, the simplex and branch-and-bound solvers, the CSparse
  bindings, and the file reading, name tables and number parsing of the MPS
  reader, all written against the library.
- `tests/` exercises the library.
