# rbtree

A red-black tree map, verified with Verus.

- `src/order.rs`: the order on keys (`Ord` taken as a total order) and a
  three-way comparison.
- `src/node.rs`: nodes, the in-order and pre-order views of a subtree, the
  red-black properties, colour helpers and rotations.
- `src/seqs.rs`: facts about sorted sequences of entries.
- `src/insert.rs`: insertion and the red-red repair at grandparents.
- `src/search.rs`: searching by key, first and last entries, in-place value
  access.
- `src/delete.rs`: deletion, minimum and maximum removal, and the repair of
  a lost black node; each has a spec function giving its exact result.
- `src/sorting.rs`: inserting entries one by one sorts them stably.
- `src/tree.rs`: `RedBlackTree`, its public operations with their contracts,
  and the laws (sortedness, balance, search, removal undoing insertion).
- `app/main.rs`: a small driver that builds a tree and prints it.
