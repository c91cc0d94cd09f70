# shep-log-rotate

A log-rotation dog for shep: it renames the log files that have grown too big
or got too old, asks the shepherd to reopen them, and then gzips and deletes
older generations so that the log directory stays bounded.

Everything the dog decides is in `src/`, in Verus, with its contracts. `app/`
is the process around it: the socket, the disk, the clock, signals and gzip.

| Module | What it is about |
| --- | --- |
| `values`, `config`, `error` | Settings: shep's spellings, defaults, faults |
| `stamp`, `naming` | Seconds of UTC, and what a generation is called |
| `flock`, `resolve` | Which file a path leads to, and which files are live |
| `qualify`, `survey` | Which logs are to be rotated, sheep by sheep |
| `rotate`, `history` | Which files are renamed, and that none is lost by it |
| `rotation`, `safety` | Renaming and reopening in turn, and what always holds |
| `prune`, `tidy` | What is compressed and deleted, until a stop |
| `tick` | One whole pass, in the order that it has to have |
| `report` | What a pass says of itself |
| `answer`, `cli`, `poll` | The shepherd's answers, arguments, the poll loop |
| `text` | Strings as sequences of characters |

A pass is a chain of types. `Looking` says which files to look at, `Listing`
which directories to list, `Renaming` what to rename and whom to have reopen,
and `Pruning` what to compress and delete; each is told what came of it and
turns into the next.

What the library promises of every pass is stated in the proof functions of
`safety`, `history`, `prune` and `survey`: no file is renamed twice, no rename
disturbs a live log, nothing is overwritten, nothing is compressed or deleted
that a sheep still writes to, and the newest generation is left as it is.
