# zevinit

ZevInit is pid 1 of Zevory Linux. This crate holds its decisions as a Verus
library, each stated in a contract and proved, and the program around them.

- `src/` — the verified library:
  - `unit`: unit files — the defaults, the rules a unit has to pass, and how
    a refusal points at the line at fault;
  - `graph`: which units a start pulls in, the waves they come up in, the stop
    order, and what is ready to go up;
  - `state`: the life cycle of a unit;
  - `shell`, `boot`: the rescue shell, when to start it again, when to fall
    back to the next one;
  - `proc`, `signal`: the table of children, what a wait status says, what
    each signal asks for, what reaping reports;
  - `power`: the ways of going down and the steps that stop every process;
  - `log`, `mount`, `console`, `sys`: log lines, the kernel filesystems, the
    console nodes, device numbers;
  - `text`: the facts about text the contracts are stated with.
- `app/` — the program: system calls, the loops that wait for signals, and
  the reading of unit files with `serde` and `toml`.
- `tests/` — the tests, run against the compiled library.
