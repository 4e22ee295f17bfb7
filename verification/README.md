# eudaemonsh

A shell with its commands, for environments in which an agent works on a filesystem of its own. The
library is written in Verus: every command carries a contract that says what it writes, what it asks
of the filesystem and how it ends, and Verus proves that the code keeps it.

- `src/` is the library. `src/lib.rs` gives an overview of its modules.
- `tests/` runs the commands on a filesystem in memory.
- `app/` is the interactive shell on a directory of the host. It reads numbers with fractions, which
  the library leaves to its caller, and evaluates the expressions of `markdownsp`.

A filesystem is whatever implements `fs::Filesystem`. The contracts are stated over its answers.
