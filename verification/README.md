# paddock

Which language models fit this machine, how fast they run, and how to launch
them: the decisions behind the `paddock` command, verified with
[Verus](https://github.com/verus-lang/verus).

- `src/` is the library. It reads what the sources of the catalog answer,
  estimates memory and speed, ranks models, plans how to run, serve and stop
  them, and keeps the state of the terminal interface. Every function states
  what it does in its contract, and the laws of each part stand beside it as
  public proof functions.
- `app/` is the command around it: arguments, files, processes, the network,
  the database and the terminal.
  The curated models come from `curated_ollama.json` in its support directory.
- `tests/` runs the library on concrete values.

| Module | What it holds |
|---|---|
| `catalog` | models and variants, GGUF headers, the Ollama library, Hugging Face, dates, database rows, syncs |
| `hardware` | chips, probes of the machine, runtimes, the profile |
| `estimate`, `score`, `calibration`, `bench` | memory, speed, ranking, measurements |
| `runtime`, `launch`, `serving`, `stop`, `logs` | plans, the way to a running server, its record, its end |
| `app`, `output`, `tui`, `tray`, `cli` | rows of the ranking, text, the terminal interface, the menu, the command line |
| `double`, `rounding`, `decimal`, `big`, `numeral`, `text`, `json`, `clock`, `paths`, `error` | what the rest is built on |

Speeds and scores are numbers of double precision. `double` computes them in
whole-number arithmetic, bit for bit, and `rounding` proves that rounding keeps
their order. Logarithms and powers are left to the application.
