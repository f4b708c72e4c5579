# joy

A personal assistant that runs on its user's own machine, with its rules proved
by Verus.

- `src/` is the library: what the assistant decides, verified. It takes plain
  values and gives plain values back.
- `app/` is the program around it: files, processes, HTTP, the terminal, and what
  is reckoned in floating point.
- `tests/` runs the library.

## What is where

| modules | subject |
| --- | --- |
| `agent`, `guard`, `budget`, `model` | the loop between a model and its tools, with its two guards |
| `graph`, `engine`, `triage`, `gather` | graphs of steps, the engine that walks them, and two such graphs |
| `turn`, `full`, `telemetry`, `dispatch`, `approval`, `goal`, `subagent`, `jobs`, `boot` | the server: requests, turns, questions to a human, background work |
| `gate`, `memory`, `retrieval`, `consolidation`, `compaction` | memory: when to look, what to find, what to keep |
| `skills`, `install`, `skill_cmd`, `schedule` | skills, and tasks that run by the clock |
| `mcp`, `transport`, `oauth`, `mcp_cmd`, `memory_server` | MCP, from both sides |
| `eval`, `scenario` | cases, and how they are judged |
| `config`, `console` | settings, and the terminal |
| `text`, `table`, `json` | strings, ordered maps, and questions put to JSON |

A function that waits for the outside is written as a state: the program asks it
what to do next, does it, and reports what came of it. `engine::Engine`,
`agent::LoopState`, `full::FullRun`, `turn::TurnRun` and
`consolidation::Consolidation` are of that kind.

What holds of the library as a whole is stated as public proof functions, next
to the functions that it is about: that a walk through a graph is bounded, that a
turn's answer comes last, that nothing is marked as remembered before it is.

## What is taken on trust

A few calls into the standard library, `chrono`, `serde_json` and `sha2` stand
behind functions whose bodies Verus does not read; each says in a comment what
is claimed of it. Everything else in `src/` is proved.

The program keeps its memory in `<home>/state.json`, and finds the models of a
provider in `<home>/providers.json`.
