# resource-tracker

A resource tracker for Linux. At a steady interval it samples the CPU time of the
machine, and the CPU time, memory and disk traffic of one process tree, and writes
one line per sample, as JSON or as CSV. It can wrap a command: it starts the
command, tracks its process tree, and exits with its exit code.

A sample also has a place for the machine's memory, networks, disks and GPUs. The
program has no collectors for these yet: they are to be plugged in where
`app/sources.rs` reports nothing.

The logic is a Verus library; what it does is stated in contracts and proved.

- `src/` is the library.
  - `collector`, `accounting`, `process`, `cpu_time`, `cgroup`: from readings of
    the kernel's counters to metrics.
  - `number`, `order`, `shortest`, `numeral`, `digits`, `power`: doubles as exact
    values, their order and their text, and numbers as text gives them.
  - `metrics`, `csv`, `json`: samples and the lines they become.
  - `config`, `tracker`: configuration, and what the program does next.
  - `text`: characters, numerals, splitting and joining.
- `app/` is the program around it: command line, files, `/proc`, signals, sleep.
- `tests/` run the library.
