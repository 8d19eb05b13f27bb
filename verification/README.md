# fgdb

Embedded write transactions over a versioned property graph, verified with Verus.

A transaction pins a snapshot, reads it together with its own prepared effects, and is
published only after first-committer-wins validation of everything it read, scanned or
means to write. Around that core stand ordered and append-only writes, capability-scoped
statements and programs, relationship merges and upserts, search corpora, audited query
evidence, and views that are maintained commit by commit.

## Layout

- `src/`: the library, proved against its contracts.
  - `ids`, `idset`, `props`, `graph`, `template`, `batch`, `errors`: the model.
  - `database`, `txn`, `edge_reads`, `adjacency`, `vertex_map`, `freshness`, `read_laws`:
    snapshots and reads.
  - `admission`, `conflict`, `append_rebase`, `finish`, `commit`, with `conflict_laws` and
    `validation_laws`: staging, validation and completion.
  - `session`, `plan`, `script`, `governed`, `statement`: what is asked of the process
    around a transaction, and in which order.
  - `selection`, `queries`, `aggregates`, `edge_merge`, `edge_upsert`, `identity`,
    `autocommit`, `autocommit_statements`: native statements.
  - `scope`, the `authorized` modules, `draft`, `controls`, `collection` and
    `disclosure_laws`: the same statements under a capability. A statement is asked for
    under the verified scope, its callbacks are paid, and its identities are issued.
  - `published`, `published_laws`: authorized and autocommitted calls as one, from the
    first check to the settled publication.
  - the `beacon` modules: search over the pinned snapshot and staged writes.
  - `evidence`: limits, pages and cursors of audited results.
  - `collector`, `selector`, `executor`, `evaluator`, `engine`, `kernel`,
    `evidence_codec`, `publisher`: what is outside, each behind a record that only asking
    adds to.
  - `weight`, `zset` and the `standing` modules: maintained sets, windows and triangles.
- `tests/`: the library from outside, against a native evaluator.
- `app/`: asynchronous publication, dropped futures, shared reservations, capability
  verification, authorized and autocommitted statements, and the text of refusals.

## What is outside

Cancellation, allowances, evaluation of intents, selection by patterns, the identities
that native statements ask for, graph evaluation, search engines, row and topology
kernels, codecs and durable publication answer through traits that promise nothing. The
library records each question with its answer in ghost state, and its contracts say what
follows from every answer.
