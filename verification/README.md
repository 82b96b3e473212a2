# aggregation

Rules for recovering certificates over every position of a fixed per-epoch range, written and proved
in Verus.

- `src/engine.rs` is the aggregation engine. It is told what happens (`src/event.rs`) and answers
  with what is to be done (`src/action.rs`). `src/model.rs` holds its model.
- `src/header.rs` and `src/journal.rs` hold the journal format and the rules of replay;
  `src/restart.rs` states what a restart recovers.
- `src/recovery.rs` shares one cap on outstanding certificate recoveries among engines. It asks the
  resolver for one thing at a time, and goes on once that is answered.
- `src/checkpoints.rs` and `src/overflow.rs` hold the rules of the store that answers which digest was
  finalized at a height.
- `src/laws.rs`, `src/restart.rs`, `src/replay_laws.rs` and `src/recovery_laws.rs` state what holds of
  the whole, as proof functions whose names begin with `law_`.

What the proofs take for granted of other crates is marked `external_body` and stands in
`src/deadlines.rs` (the priority set that keeps deadlines), `src/faults.rs` (quorum sizes),
`src/committee.rs` (SHA-256) and `src/varint.rs` (integers of variable length).

`Cargo.toml` names the macro crates of the commonware family only to hold them at the version of the
crates that use them.

`app/` runs the rules on the commonware runtime: networking, storage, signing schemes and actors.
