# datafusion_ray

Runs a query on many processors: splits its physical plan into stages, hosts each stage on
the processors that share it, and moves the rows between them over Arrow Flight.

`src/` is the library. Its functions are verified with Verus against the contracts in their
headers, but for the few that make calls into outside crates, whose contracts are trusted. It
holds no I/O: plans, addresses, tickets and bytes go in, and decisions come out.

- `plan`, `isolator`, `max_rows`, `pre_fetch`, `stage`, `stage_reader`: plans and the nodes
  that are added to them. An operator of the query engine is kept as a handle.
- `physical`: marks where a plan is to be split.
- `dataframe`: splits a marked plan into stages and says how processors share them.
- `wire`, `ticket`, `codec`: the bytes that cross the network.
- `flight`, `execution`, `processor_service`: answering tickets, and finding the processors
  that host the stages that a stage reads.
- `context`, `pyerr`, `text`: settings, errors and the texts that they are shown as.
- `laws`, `linking`, `restoring`, `sending`, `sharing`, `unmarked`: what holds of the library
  as a whole. Among others: putting the stages of a plan in the places of their readers gives
  the plan back, every stage but the last is read once and by a later stage, and is shared as
  the operator under its marker says, every partition is read by one processor, a ticket
  reads as it was written, and so does every node of a stage whose limits and buffers are not
  empty.

The trusted functions are eight: seven in `wire`, which call `prost` for the fields of
messages, and one in `dataframe`, which calls `itertools` to deal out partitions. Two more
items in `wire` are trusted beside them: what `prost` says of the length of a number, and the
name for where a group that it skips ends.

`app/` is the Python extension around the library: it turns the plans of DataFusion into
plans of the library and back, and does what needs a network, a runtime or an interpreter.

`tests/` run the library on concrete plans and messages.
