# Butler

Butler is a desktop shell for the Code Server sessions that Open OnDemand
launches on a Slurm cluster: it discovers them over SSH, opens them through
local tunnels, cancels them, and groups them into projects.

This repository holds Butler's logic as a library verified with Verus
(`src/`), and the Tauri application around it (`app/`).

## Library (`src/`)

| Module | What it decides |
| --- | --- |
| `text` | Character classes, trimming, splitting, searching, decimals |
| `protocol` | The byte protocol of the remote scripts: markers and records |
| `slurm` | `squeue` rows, durations, GPU allocations, memory requests |
| `ood` | Open OnDemand session records, display names, safe paths |
| `connection` | `connection.yml` and the URL of an opened session |
| `discovery` | Matching records to jobs, the sorted session list |
| `config` | Defaults, environment overrides, normalization, validation |
| `ssh` | Quoting of remote commands, `ssh` arguments, failure messages |
| `backend` | The scripts and commands run over SSH, status, tunnel waits |
| `projects` | The project store and session assignments |
| `demo` | The cluster service seam and its demonstration sessions |
| `models` | The values that the shell shows |

Every public function states its result in its contract. Among the
properties proved:

- a POSIX shell splits a command line built by `shell_join` into exactly
  the words it was given (`ssh::lemma_shell_join_round_trip`). This is
  about words: the shell still gives a word its meaning, so a first word
  such as `NAME=value` (a configured binary containing `=`) is read as an
  assignment rather than as the program;
- the session list is in sidebar order and holds the discovered Code
  Server sessions, each with a job that Slurm reported
  (`discovery::lemma_sorted_sessions`, `discovery::lemma_selected_sessions_active`);
- every project operation keeps the store's invariant; one that starts
  with unique ids and names keeps them (`ProjectState`'s contracts,
  `projects::lemma_one_default`), creation only while the next id is below
  `i64::MAX` (at that id a store that already holds it would get it
  twice); and a saved store loads back unchanged
  (`projects::lemma_reload_keeps_store`; the JSON file itself is the
  application's).

## Application (`app/`)

The application runs processes, reads and writes files, holds the tunnels
and registers the Tauri commands. It converts between the library's types
and serializable copies of them, and computes fractional memory amounts in
floating point.

## Tests

`tests/` runs the library on concrete values.
