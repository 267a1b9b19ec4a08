# vector

The decisions of an observability pipeline, verified with Verus: how a configuration is loaded and
compiled, how the pieces of a topology are put together, and how records are handed to a Kafka
producer.

- `src/config` — loading (`files`, `fragments`, `loading`), patterns in inputs (`globs`) and
  compiling (`compiler`).
- `src/topology` — what a new configuration changes (`diff`), the order in which schemas are worked
  out (`layers`, `schema`), what components are built with (`contexts`), how what became of them is
  put together (`builder`, `tables`, `outputs`, `pieces`), and how their tasks run (`events`, `run`,
  `concurrent`).
- `src/kafka` — delays between attempts (`backoff`), and the service in front of a producer
  (`service`).
- `src/ordered.rs`, `src/keyed.rs`, `src/text.rs` — the maps and strings that all of this rests on.
- `tests` — the behaviour of the library on concrete values.
- `app` — what reads, sends, sleeps and spawns around it.

Functions named `law_…` state what holds across the library; each says in its comment what it
states.
