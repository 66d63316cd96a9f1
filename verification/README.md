# a-agent

A terminal coding agent whose logic is verified with Verus.

- `src/` is the library. Contracts say what its functions return or change, and
  Verus proves that the code meets them.
- `app/` is the program around the library: the terminal, files, processes, the
  network and the SQLite database. It carries out what the library decides.
- `tests/` runs the library on concrete values.

## The library

| module | what it holds |
| --- | --- |
| `text`, `table` | texts as sequences of characters, tables by key |
| `json`, `settings` | JSON and TOML values, and how settings files are merged |
| `config` | providers, model profiles, and which model a name selects |
| `model` | messages, calls, results, and the events of a stream |
| `provider` | request bodies and the answers of the three protocols |
| `agent` | when a conversation is summarised, and the steps of a turn |
| `session`, `store` | sessions, branches, snapshots, and which records are found |
| `tools` | patches, reading, commands, paths, and how calls are scheduled |
| `context` | instructions, skills, piped input, and the system prompt |
| `pricing` | price schedules and how a model's prices are found |
| `cli` | arguments, slash commands, prompts, rewinding, and the main loop |
| `tui` | the input line, the palette, and what is drawn of a conversation |
| `fish` | the Fish integration |

Facts that relate several functions are stated as public proof functions whose
names begin with `law_`. What the library takes on trust of other crates and of
the standard library stands in small functions marked
`#[verifier::external_body]`, each with a comment that says what is claimed.
