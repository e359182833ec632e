# nanocube

A nanocube indexes points of a multi-dimensional space, each with a summary
(a count, by default), so that the summary of every region selected by a
prefix of address bits in each dimension is stored in advance.

Each dimension keeps an arena of refinement nodes (`left`/`right` refine one
bit of the dimension's address, `next` leads to the next dimension), and
below the last dimension an arena of summaries. Subtrees are shared, and each
arena slot carries a reference count; releasing the last reference to a node
empties it and releases what it pointed to.

Layout of `src/`:

- `nanocube.rs`: the structure and its operations (`add`, `insert`,
  `insert_fresh_node`, `merge`, `make_node_ref`, `release_node_ref`,
  `get_summary_index`), and `test_nanocube`/`smoke_test`, which build cubes.
- `model.rs`: what a cube means: the answer `eval` to a query, the
  well-formedness `good` of a subtree, reference surpluses.
- `layout.rs`: the arenas as plain sequences, and what `merge`, `insert`,
  `insert_fresh_node`, a release, `add` and a whole build leave in them, slot
  by slot.
- `chain_proof.rs`: the exact layout of the chain of nodes that holds a
  single point.
- `cascade.rs`: the order of the arenas (every child sits below its
  parent, so no chain of pointers loops), and the order in which a release
  empties nodes.
- `liveness.rs`: which slots a change leaves unreferenced; a node that
  nothing refers to holds no pointer.
- `frame.rs`, `merge_proof.rs`, `insert_proof.rs`, `release_proof.rs`,
  `counting.rs`: the proofs behind the operations' contracts.
- `laws.rs`: properties that span several calls.
- `dot.rs`: the Graphviz text of a cube, and its plain-text listing.
- `ref_counted_vec.rs`, `cube.rs`: counted arenas, and the summaries' monoid.

`app/` prints cubes and writes them to disk.
