# Container manager applet: verified core

A COSMIC panel applet that lists the Docker and Podman containers of the
machine and starts, stops, restarts or removes them.

- `src/` is the library, written in Verus and verified: container states and
  the actions they allow, the per-row records of running actions and their
  errors, the parser of the engines' container listings, the command lines and
  how their outputs become containers or errors, the steps of an action (a
  removal re-reads the container's state first), the merge of all engines'
  discoveries (identical rows once, Docker's preferred), the bookkeeping of a
  command under a deadline, and the panel's state machine. Each module ends
  with the laws it proves.
- `tests/` runs the library on concrete values.
- `app/` is the program around it: processes, pipes, threads and deadlines
  (`app/runtime.rs`) and the COSMIC user interface (`app/ui.rs`).
