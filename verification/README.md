# nsys2perfetto

Converts native NVIDIA Nsight Systems Parquet exports into a Perfetto timeline (Chrome
trace JSON, optionally compressed) and an aligned event table.

- `src/` is the converter's logic, verified with Verus.
- `app/` is the program around it: the command line, running the queries, JSON and
  Parquet files.
- `tests/` runs the library on concrete traces and record batches.

## The library

| module | what it is about |
| --- | --- |
| `model` | the records of a trace and the fixed numbers of the timeline |
| `text`, `seqs`, `order` | decimal text, sequences made of blocks, sorting and listing |
| `batches`, `input`, `tables` | reading records from Arrow record batches; the tables of an export and their queries |
| `link` | linking kernels and copies to the Runtime calls that started them; identifiers |
| `project` | projecting NVTX ranges onto the kernels launched inside them |
| `devices` | the devices of processes and copies |
| `lanes`, `tracks` | packing intervals into lanes, and lanes into numbered tracks |
| `flow_ids` | the numbers of arrows, in a namespace per report |
| `scene` | where everything of a timeline is placed |
| `event`, `naming`, `slices`, `ranges`, `emit` | the events and rows of a timeline |
| `trace` | the conversion as a whole and its summary |
| `json`, `output` | framing events as a JSON array; rows as columns |
| `laws`, `flows`, `stacks`, `nesting`, `hierarchy`, `named` | what holds of every trace and every timeline |

Instants are kept in whole nanoseconds throughout the library; the program turns them
into microseconds when it writes them.

Each exported function states in its contract exactly what it returns. The properties
that span functions are public proof functions. Among them: lanes never hold overlapping
slices; ranges that are disjoint or nested, and projected ranges, replay as stacks as
long as none ends before it begins; every slice is on a named track; every kernel is on
its core timeline exactly once; arrows come in pairs with numbers of their own, and
reports with different namespaces share none; and records that have just been read
convert whenever anything in them can be shown.

What is not proved but taken from Arrow's documentation is stated on the few functions
of `batches` that read a record batch.
