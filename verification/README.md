# hotstuff_rs

A HotStuff state-machine-replication core, verified with Verus.

The library under `src/` decides: what goes into the block tree, which certificates are safe, when a
replica votes, what a leader proposes, which blocks are fetched from whom, and how a damaged tree is
healed. It stores, sends and waits for nothing. Every step appends what is to be done to the block
tree's journal (`effects::Effect`), in order; time comes in as milliseconds.

- `types`, `pacemaker`, `codec`, `wire`: values, and their byte encodings
- `block_tree`: the tree, its write batches, the safety rules, commits, pruning, recovery, and how
  the tree is kept in a key-value store and loaded from one; a value that cannot be read fails the
  reads of it and no others
- `hotstuff`: certificates, vote collection, leading, voting, headers and bodies, fetching
- `block_sync`: the sync client and its sessions
- `networking`: which messages are looked at now, kept for later, or dropped
- `committed_feed`: handing committed blocks to the application
- `algorithm`: the turns of the main loop

What holds across functions is stated as proof functions whose names begin with `law_`.

`app/` holds the threads, channels and clocks around the library, and does what the journal says.
