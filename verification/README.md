# clawhive-core

The core of an agent that talks over channels, calls tools and remembers, written
in Verus: each decision is an executable function with a contract, and the laws
that hold across functions are proof functions beside them.

## Layout

- `src/text.rs`, `src/seqs.rs`, `src/token_set.rs`: text, sequences, sorted sets of texts
- `src/dates.rs`, `src/base64_text.rs`: calendar dates and base64
- `src/records.rs`: facts, search results and scores
- `src/memory_retrieval.rs`: matching, ranking and deduplication of memories
- `src/memory_summary.rs`, `src/daily_reading.rs`: candidates of summaries, daily notes
  written and read
- `src/memory_tools.rs`: the tools by which a model searches, reads, writes and forgets
- `src/orchestrator/`: what happens to a message
  - `inbound`, `turn`: routing, prompts, and the course of a turn
  - `tool_loop`, `messages`, `predicates`, `tool_access`: rounds with a model and its tools
  - `memory_context`, `attachment`: what goes into a request
  - `episode/`, `closing`: episodes of a session, flushing them, and ending it
  - `summary`: from candidates to facts and notes
  - `skill_commands`, `model_change`, `registry`: commands and set-up
- `tests/`: examples of all of these on concrete values
- `app/`: scores in floating point, serialization, and the asynchronous work around
  the library, against the stores, models and channels of a host

## What is trusted

Each call into another crate stands in one small function whose doc comment names
it: `chrono` for dates, `base64` for attachments, `lopdf` for documents, `serde_yaml`
for configuration files, and a few functions of `std` on text. What such a call
computes is stated where a few lines can state it, and otherwise named. Of a document
that `lopdf` reads nothing is promised, since one file can be read in more than one
way: what follows a reading is stated for every reading.
