# crdt_db

A grow-only set replicated with vector clocks, verified with Verus.

- `src/clock.rs`: vector clocks, their model as a sequence of (replica, counter)
  entries, and the laws of merging.
- `src/gset.rs`: the grow-only set replica and the convergence laws.
- `src/crdt.rs`: the replicated-data-type interface and the store's messages.
- `src/tester.rs`: random interleaved replay of scripted operations.
- `src/chat.rs`: the state of the terminal chat window.
- `app/`: file storage, script loading, the gossip server and the terminal UI.
