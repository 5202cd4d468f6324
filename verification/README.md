# rustper

A Kafka fan-out router. One source normalises records into a transport-neutral
event, every configured sink receives the same batch, and the source commits
only the contiguous prefix of batches that every sink has acknowledged.

Delivery is at-least-once. A batch that any sink rejects is never committed, so
Kafka replays it; sinks that already accepted it will see it again.

## Layout

- `src/` is the router's logic, proved with Verus. Every decision is a function
  or a step of a state machine with a contract: what is received, sent, slept
  for or committed is handed in and out as plain values.
- `app/` is the runtime around it: tasks, channels, timers, the Kafka and
  ClickHouse connections, the metrics endpoint, and the TOML configuration.
- `tests/` runs the logic, with the outside crates linked in.

| Module | What it holds |
| --- | --- |
| `config` | the configuration, its defaults, and what makes a topology valid |
| `groups` | groups and their members, for the proofs |
| `event` | events, batches, and the arena that record contents are copied into |
| `source::kafka` | records to events, offsets to commit, consumer settings |
| `source::window` | micro-batching, the in-flight window, ordered commits |
| `topology` | wiring, fan-out and acknowledgement |
| `sink`, `sink::coalescing` | retries, coalescing and write concurrency |
| `sink::kafka` | delivery tracking and the enqueueing of a write |
| `sink::clickhouse` | rows, identifiers, and the JSON grammar they follow |
| `metrics` | counters, rates and the Prometheus exposition |
| `librdkafka` | what is taken from librdkafka without a broker |

## What is proved

Besides the contract of each function, `src/` states the promises of the router
as a whole as public proof functions. Among them:

- no commit passes an event that is not acknowledged by every sink
  (`source::window::no_commit_passes_an_unacknowledged_event`);
- the window is bounded in batches and, but for the one batch that goes over, in
  bytes (`source::window::the_window_is_bounded`);
- a rejected batch or a shutdown ends the commits for good
  (`source::window::a_rejected_batch_is_never_committed`,
  `source::window::nothing_is_committed_after_a_shutdown`);
- every batch sent holds between one event and the batch size, and the source
  counts the events and payload bytes of what it has committed
  (`source::window::every_batch_is_bounded`,
  `source::window::the_counters_follow_the_commits`);
- a batch gets one verdict, from its last branch
  (`topology::the_last_branch_gives_the_verdict`);
- every envelope a sink takes is written once and in order
  (`sink::coalescing::every_envelope_is_written_once_in_order`), and is
  acknowledged exactly once, as delivered only if its write succeeded
  (`sink::coalescing::every_envelope_is_answered_once_by_its_write`,
  `sink::coalescing::every_envelope_has_one_answer_in_the_end`);
- a table name and a component id read back as they were, once quoted
  (`sink::clickhouse::a_quoted_identifier_reads_back_as_the_name`,
  `metrics::a_label_reads_back_as_the_id`);
- every JSON row is a JSON object if its payload is one
  (`sink::clickhouse::grammar::every_row_is_a_json_object`).
