# Cortex

A cognitive memory library for agents, written in Verus: the functions in
`src/` carry `requires`/`ensures` contracts that Verus proves.

- `src/memory/` — the document store with its search cache, the belief graph,
  file chunking, memory management and the embedding endpoint.
- `src/agents/` — the actor agent: query terms, document scoring, date
  answers, prompts and the fallback answer.
- `src/security/`, `src/secrets/` — payload encoding, password hashing and
  tokens; the decisions after a prompt-injection verdict; secret stores.
- `src/checkpoint/`, `src/scheduler/`, `src/keyed.rs` — keyed stores of
  checkpoints and jobs, and the laws they share.
- `src/ui/`, `src/server/`, `src/tasks/` — dashboard values, server answers
  and default projects.
- `app/` — the command line and everything that does I/O (HTTP, files,
  JSON), or works on floating-point numbers.
- `tests/` — tests of the library on concrete values.
