# aish

The core of an AI-native shell, verified with Verus, and the program around it.

- `src/` is the library. It decides: how a turn between the model and the tools goes
  (`engine`, `loopguard`, `backend`), what is shown of it (`activity`, `md`, `width`,
  `header`, `midturn_input`), which hooks fire (`hooks`), how MCP servers are spoken to
  (`mcp`, `json`), how goals are pursued (`goal`), what states a worker goes through
  (`lifecycle`, `coordinator`), which local model fits a machine (`hwdetect`), what a
  checkout is called and what may be recorded of it (`git`, `git_repo`), and what the
  command line asks for (`cli`). What is computed or decided has a contract;
  only the readings of the clock (`ids`) and the traits by which the editor reaches a
  terminal promise nothing. The public proof functions state what holds across them.
  `chars` is the mathematics of text, `text` the code that computes it.
- `app/` is the program: the command line, the terminal, child processes, the network and
  the store. It hands plain values to the library and does what the library decides.
- `tests/` runs the library.

Calls into other crates stand behind small functions with a stated contract: display
widths (`width`), JSON text (`json`), drawn diagnostics (`diag`), identifiers and clocks
(`ids`).
