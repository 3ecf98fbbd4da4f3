# shellsuggest

A cwd-aware inline suggestion engine for zsh. While a line is typed, it proposes
commands that were run before, most of all in the current directory, and paths
that are there.

`src/` is the engine, verified with Verus: the wire protocol, the providers that
propose, the ranking, the choice among proposals, the sessions, the rules of the
journal, the import of a history file, the changes to a `.zshrc`, and the
configuration. Every function states what it returns, and the properties that
span functions stand beside them as proof functions named `law_*`.

| module | what it holds |
| --- | --- |
| `text`, `number`, `order`, `distinct`, `paths` | texts, numbers, stable ranking, removal of repeats, paths |
| `protocol` | messages, their lines, and the way back |
| `ranking` | what a proposal is scored by |
| `plugin` | the four providers: `history`, `cwd_history`, `path`, `cd_assist` |
| `daemon::broker` | the choice among what the providers propose |
| `runtime` | sessions, and the answer to each message |
| `db` | queries, statistics and their agreement with the journal |
| `history_seed`, `migrate`, `config`, `cli` | history import, `.zshrc` changes, settings, printed reports |

`app/` is the program around it: SQLite, files, the environment, the clock,
standard input and output, and the floating-point scores. A provider says what it
needs to know, the program looks it up, and the provider turns the reply into
proposals.

`app/zsh_plugin.rs` is the zsh side, which the program carries and prints with
`shellsuggest init zsh`.
