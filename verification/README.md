# squire

The Squire context manager of an LLM agent, as a Verus-verified library.
Squire keeps a store of tokens (concepts, references, tools, skills,
workflows, chunks of the conversation) and the relationships between them,
hands the model a budgeted context each turn, and checks and commits the
model's close responses written in the Bookmark Protocol (`§!` references,
`§^` spans and bookmarks, `§#` sections).

## Layout

- `src/` — the verified library. Each module states its behaviour in
  `requires`/`ensures` over spec functions, and the laws that span several
  functions are public proof functions named `law_*`. Among the modules:
  `protocol`, `bookmark` and `validation` (the response format and its
  rules), `chunking`, `finalize` and `turn` (ingesting and closing turns),
  `memory`, `backend` and `store` (the token store and the active process
  state), `decision` and `dt_tool` (decision trees), `stream` and `events`
  (model-provider streams), `ranges` and `resolve` (text ranges).
- `tests/` — tests run against the compiled library.
- `app/` — the unverified shell around it: HTTP providers, file and process
  I/O, serde types, and the async turn loop.

Calls into outside crates (`serde_json`, `uuid`, `chrono`) and a few `std`
functions go through small trusted wrappers whose contracts say what those
functions do; everything else is proved.
