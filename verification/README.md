# nexora

The storage engine of Nexora, an embedded graph database, written in Verus:
every function of the library carries a contract that Verus proves.

A database is a file of 4096-byte pages. Page 0 is the file header, which
names the footer page; the footer holds the counters and the heads of the
page chains. Nodes live in node pages found through a page index, edges in a
chain of edge pages and in two lists per node (outgoing and incoming),
label names and other strings in string pages, properties in property pages.
Every page carries a CRC-32 checksum of its bytes.

## Layout

- `src/utils` — little-endian field codec over byte sequences, bit sets.
- `src/storage` — page store with checksums, storage manager (header,
  footer, page allocation), write-ahead log (frames, recovery, checkpoint).
- `src/index` — the node page index: page number to page id.
- `src/graph` — record pointers and cursors, node, edge, string, label and
  property stores, and `GraphStore`, the graph as a whole.
- `src/api` — traversals: path search, shortest paths, breadth-first and
  depth-first walks.
- `app` — the command-line program: argument handling, files on disk, the
  log file, and the callback-driven traversal interface.
- `tests` — tests of the library on concrete values.

## What is proved

Each store operation is specified by a spec function over the sequence of
page bytes and the footer; the executable code is proved to compute exactly
that. On top of these, proof functions state the laws of the store. Most
read-back laws hold of stores in order for the operation (a predicate
stated beside each law, such as `string_store_ok`, `node_insert_ready`,
`edge_insert_ready` or `label_store_ok`); a new file is in order for all
of them (`lemma_new_file_in_order`). Among the laws:

- strings read back after they are stored, also after later string inserts
  and with freed pages taken again, and inserts and frees keep the store in
  order for strings;
- nodes and edges read back after they are inserted, also when their pages
  come off the free list; the node part of a store stays in order
  (`node_store_ok`) through every node insert, into the last node page or
  a new one, and through freeing a page it does not use; node and edge
  records read back after they are
  updated, and are not found after they are deleted; a new edge heads both
  lists of its nodes; a scan that reaches its end stays there;
- labels read back after they are inserted, and inserting the same name
  twice gives one label (on stores whose free list is empty); inserting a
  label, found or added, keeps the labels of such a store in order
  (`labels_in_order`), so these laws hold again for the next insert;
- an index entry reads back, also after the file is closed and reopened; a
  footer survives closing and reopening, and so does each node with its
  label;
- log headers and frames read back, recovery gives each page its last
  committed data frame, the log is cut where its committed part ends so
  that a session that stopped before its commit leaves no write behind, and
  a checkpoint leaves each page the log index names with the image of its
  frame;
- path search answers exactly whether a path exists, shortest paths are
  paths of least length, and the two agree on one store.

The only code taken on trust is the call to `crc32fast` that computes page
checksums and the call to `std::str::from_utf8` that decodes label text.
