# bytemaker

A coding agent for the terminal. The model works in a loop: it is shown the conversation, answers or
calls tools, and goes on until it is done, its goal is met, or its turns are used up.

## Layout

- `src/` is the library: everything that decides or computes. Its functions have contracts that Verus
  proves, except for the trusted functions named below. The methods of `Output` and `Input` promise
  nothing by themselves, as what they do is up to the device behind them; nor do those of
  `MemoryStorage`, which a store of memory records implements.
  - `driver` and `agent`: the order of the work, turn by turn, and the conversation.
  - `compact`: keeping the conversation within the limits of the model.
  - `hooks` and `builtins`: callbacks around the loop, among them the permission gates.
  - `goal`: working on until a condition is met.
  - `memory`, `skills`, `frontmatter`: what the agent remembers and can look up.
  - `background_tasks`, `cron_scheduler`, `task_system`, `team`, `todo`: work that goes on beside the
    conversation.
  - `providers`, `domain`, `error`: messages, and calls of a model that streams its answer.
  - `io`, `render`: what the user sees.
  - `eval`: recorded model calls, task suites, trajectories and reports.
  - `json`, `pattern`, `text`, `random`: what the others build on.
- `app/` is the program around it: the console, files, processes and the network.
- `tests/` runs the library.

The library trusts a few outside functions (`serde_json`, `serde_yaml`, `regex`, `croner`, `colored`,
`sha2`, `fastrand`, and some of the standard library). Each stands behind a function whose contract
says what is taken for granted. Verus believes that contract and does not prove it.

## Running

Set `OPENAI_API_KEY`, and `OPENAI_MODEL` or `OPENAI_BASE_URL` where the defaults do not fit.

```bash
bytemaker                                      # an interactive session
bytemaker eval run --suite core --replay       # recorded calls, no key needed
bytemaker eval run --suite core --live         # a real model
bytemaker eval compare evals/runs/A.json evals/runs/B.json
```
