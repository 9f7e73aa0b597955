# mtga-sleuth

A local tracker for Magic: the Gathering Arena on Linux. It follows the game's
`Player.log`, takes its lines to events, stores what they say, and serves a web
interface.

The logic is a library written in Verus: every function states in its contract
what it returns, and Verus proves it.

| Directory | What it holds |
| --------- | ------------- |
| `src/`    | the library: parser, event handlers, cards, deck lists, costs, simulation |
| `tests/`  | its tests |
| `app/`    | the program around it: files, database, network, server |

In `src/`:

- `log_watcher`, `parser`: from the log to events
- `state`: what each event does
- `cards`, `localization`, `config`, `counts`: what the rest stands on
- `web`: deck lists, exports, costs, search, and what is shown of what is stored
- `sim`: draw simulation, with mana, mulligans and the matching of lands to costs
- `text`, `json`, `patterns`: texts, JSON values and regular expressions

What comes from other crates (regular expressions, JSON, shuffles, media types,
time) is called from small functions whose contracts are taken on trust; each says
so above its name.
