# mini_codex

A small coding agent whose core is verified with Verus.

- `src/` — the verified library:
  - `sse` — incremental Server-Sent Events decoder; where a stream is cut into
    chunks does not change the events (`lemma_feed_split`).
  - `session` — the engine as a state machine (operations, model replies and
    tool results in; events and the next action out), the `[TOOL]` line
    protocol, and the laws of the loop (append-only history, bounded tool
    rounds, errors that do not end the session), stated per step and over
    whole runs of inputs (`run`, `lemma_whole_turn`, `lemma_shutdown_is_last`).
  - `llm` — the scripted model, the request body, text-delta extraction, and
    the decisions of a streamed completion.
  - `tools` — tool outputs, the `read_file` tool and its schema, the name
    registry.
  - `rollout` — JSONL framing of the append-only log, and reading it back line
    by line, each line decoded on its own (`lemma_byte_lines_of_jsonl`).
  - `prompt` — rules folded into the system prompt; reading the answer out of
    a Responses API reply.
  - `protocol`, `probe`, `text` — the shared types and character helpers.
- `app/` — the command line, the HTTP client, channels and tasks, file I/O,
  and the serde forms of the records.
- `tests/` — tests of the library.
