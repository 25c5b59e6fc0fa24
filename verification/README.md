# ccdb

A small replicated key-value node, with its decisions written and proved in
Verus.

`src/` is the library. It holds

- the RESP2 client protocol and the command table (`resp`, `command`, `kv`,
  `client`, `serving`);
- the Raft core: elections, replication, proposals, joint consensus, snapshots
  and leadership transfer (`raft_*`, `membership`, `envelope`), its wire codec
  (`wire`, `codec`), a bounded search through its states (`model`,
  `model_steps`, `model_bounds`), what a node makes durable before it tells
  anybody (`raft_durable`), and what holds of every run of a cluster: terms
  have one leader (`raft_safety`), nodes agree on what is committed
  (`raft_logs`, `raft_agreement`), confirmed reads miss nothing (`raft_reads`),
  so the search finds no conflict (`model_safety`);
- the rules of the host: identities, configuration files, joining, recovery,
  backups and restores, the order of its work (`work`), metrics, peer
  connections and the command line.

Every function states what it returns; the laws that span functions are the
`law_*` proof functions, in the modules they speak of and in the `*_laws`
modules.

`app/` is the program around it: files, sockets, threads. The storage engine
and the driver that runs the core on it are linked in behind the traits of
`app/engine.rs`.
