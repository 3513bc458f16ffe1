# kv_store

A key-value store of byte strings kept in a B+ tree whose nodes live in pages handed out
by a page manager, with an HTTP front end.

The library under `src/` is verified with Verus:

- `btree/key_order.rs`, `btree/tree_spec.rs`: the order of keys, and what a tree of pages
  is and what map it holds.
- `btree/leaf_node.rs`, `btree/internal_node.rs`, `btree/btree_node.rs`: the nodes, whose
  headers count what they hold.
- `btree/get.rs`, `btree/set.rs`, `btree/delete.rs`: lookups, insertions that split full
  nodes on the way down, and deletions that fill up or merge thin nodes on the way down.
  Each keeps the tree well-formed and is specified by what it does to the map the tree
  holds.
- `btree/tree_lemmas.rs`, `btree/sibling_lemmas.rs`: why splitting, merging and moving
  entries between nodes keep the tree well-formed and its contents unchanged.
- `btree/outline.rs`: the tree drawn as an outline of pages and leaf entries, which
  `app/` prints.
- `btree/laws.rs`: what the operations promise together.
- `btree/page_managers/`: the page manager and the layout of a node in its block.
- `load.rs`: the decisions of the load generator (which request a tick sends, how the
  rate rises, whether an answer is an error); `app/` makes the draws and the requests.

`app/` holds the program around it: writing pages to a file, the HTTP server, a load
generator, and CSV logs of operations.
