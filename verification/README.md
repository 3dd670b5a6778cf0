# byop_agent

Decision logic of an agent that talks to model providers which the user brings along. The
library is written in Verus: what each function returns or changes is stated in its contract
and proved.

- `src/` is the verified library.
  - `bounded_result`, `request_budget`: tool results of an outbound request are kept within
    byte limits. `json`, `json_unique` and `text` are what they are built on.
  - `message`, `plan`, `commit`, `state`, `auto_compaction`: which messages a summary covers,
    when it is taken over, what it hides, and when it is due.
  - `agent`, `recovery`: the input that waits while a conversation is summarized.
  - `api_error`: provider errors, and which of them are tried again or reported.
  - `skill`, `mcp_startup`, `mcp_auth`: skills and tool servers.
  - `text_layout`: whether a message was laid out completely.
- `tests/` runs the library on concrete values.
- `app/` is ordinary Rust around it: the HTTP client, saved records, asynchronous waits, the
  clock and measured text.

Functions whose body is trusted only call into an outside crate or the standard library;
their doc comments name the calls and say what is claimed of them. Properties that relate several functions
stand as public proof functions whose names start with `law_`.
