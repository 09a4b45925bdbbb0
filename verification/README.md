# netbaiot_mqtt

An MQTT broker for fleets of devices, for MQTT 3.1.1 and MQTT 5, written in Rust and verified with
Verus. Everything the broker decides is a function with a contract; reading sockets and files is
left to a thin layer around it.

## Layout

- `src/codec/`: the two wire formats, decoded incrementally from a buffer and encoded within bounds.
- `src/broker/`: sessions, subscriptions, queues, retained messages and wills. `model.rs` says what
  the state is and what each step does to it; `state.rs` and its siblings do it. `tidy.rs`,
  `slots.rs`, `answers.rs`, `weight.rs`, `ease.rs`, `flow.rs`, `turnover.rs`, `filing.rs`,
  `carry.rs`, `history.rs`, `handover.rs`, `safekeeping.rs`, `tenure.rs`, `totals.rs`, `restart.rs`,
  `undo.rs`, `unsubscribe.rs` and `law.rs` prove what holds whatever is asked of the broker.
- `src/connection/`: what a connection does with each packet, frame, refusal and ending.
- `src/recovery/`: the recovery image, written and read back. `law.rs` and `integrity.rs` prove that
  it is what was written.
- `src/topics.rs`, `src/trie.rs`: topic names, who may use them, and who is subscribed to them.
- `src/session.rs`, `src/message.rs`, `src/usage.rs`: what a session holds and what it counts for.
- `app/`: the network loop, the recovery files, and the JSON of the oldest recovery format.
- `tests/`: scenarios, one file for each part, and `laws.rs` with an example of each law.

Proof functions whose names begin with `law_` are the statements about the library as a whole.

## Time

The library does not read a clock: functions that depend on the time take it as `now`, in
milliseconds.
