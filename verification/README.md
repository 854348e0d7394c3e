# diskpulse

A disk visualizer and a cache cleaner for the terminal, with its rules proved
in Verus.

- `diskpulse viz` shows what is using the space, as a tree.
- `diskpulse clean` shows which caches can be reclaimed. It is a dry run unless
  `--apply` is given, and asks for a confirmation unless `--yes` is given too.
- `diskpulse targets` lists the cache locations it knows.

## Layout

`src/` is the library. Every decision stands there with a contract that Verus
checks:

| Module | Content |
| --- | --- |
| `path` | paths as texts and as lists of components, Unix and Windows |
| `jail` | the locations that are never cleaned |
| `registry` | the catalog of cache targets |
| `planning` | from a reading of the file system to a plan |
| `execution` | from a plan to removals and a report |
| `scanner`, `census` | what a walk keeps, and the tree it becomes |
| `models` | the tree, plans and reports |
| `cli`, `flow` | arguments, and what a run does with them |
| `ui`, `palette`, `width`, `binary64` | what is shown |
| `util`, `text`, `errors` | sizes, durations, texts, failures |

`cleaner` gathers the functions of the cleaning engine under one name.

`app/` is the program around the library: flags, the walk through the file
system, removals, the terminal and JSON. It reads values, hands them to the
library and carries out what the library decides.

`tests/` runs the library on concrete values.

## What is proved

Besides a contract for every function, the library states laws, as public proof
functions whose names begin with `law_`. Among them:

- A location is allowed exactly when it is no bare root, not the home directory
  or the directory above it, under no system root and in no personal directory;
  detours through `..` do not change that (`jail`).
- Every planned item was found at one of the roots, is as large and as old as
  asked for, and lies in an allowed location (`planning`).
- A link is only ever unlinked itself; what the jail refuses right before a
  removal is not removed; a removal that must stay on its file system ends at
  the first entry beyond it (`execution`).
- Nothing is removed without `--apply`, nor without `--yes` or a confirmation
  (`flow`).
- The totals of a scan are the sums over all entries, in whatever order they are
  found and whatever is displayed of them (`census`, `scanner`).
- The directory above a path is spelled as the path begins, and has all of its
  components but the last (`path`).
- The blocks filled in a bar are a tenth of the percentage, rounded, and a larger
  percentage never fills fewer (`ui`).
