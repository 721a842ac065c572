# drain_check

Checks that the consumers of a Kafka cluster catch up with its topics once faults have stopped.

The check waits for the cluster to come back, then samples the lag of every stable consumer group
until none is left or two minutes are up. A sample without lag counts only when the offsets of
every such group came without an error and every offset among them has a known mark. The decisions
are a library, verified with Verus; the program around it talks to Kafka and reports the outcome.

- `src/health.rs`: the wait for the cluster, with growing pauses and a time limit.
- `src/lag.rs`: which topics and groups count, and how far behind a group is.
- `src/watermarks.rs`: high-water marks by partition.
- `src/query.rs`: one query for the lag of all groups, step by step.
- `src/drain.rs`: the drain check itself.
- `src/partition_list.rs`: the Kafka client's partition list. Its functions are the only ones whose
  contracts are believed and not proved.
- `src/laws/`: what holds of the whole, for every course of events.
- `app/`: the program. It performs what the library asks for and hands back what happened. Its
  one argument is the path of the workload's configuration file. The workload's own crate,
  `antithesis_kafka_workload`, reads that file, so the program is built in the workload's
  workspace.
