# UNDR9

A graph database for the memories of agents: nodes and edges with properties and named vectors,
graph traversal, shortest paths, time ranges, and retrieval that ranks memories by structure,
meaning, recency, importance and confidence.

- `src/` is the library. Every item in it is verified with Verus: its functions state in `ensures`
  what they return or change, and public proof functions named `law_..` state what holds across
  functions.
- `tests/` runs the library on concrete values.
- `app/` is the program around it: the command line, the HTTP service, files, tracing, and what is
  computed in floating point.

## Models

Types of the library have a view: a node is its id, type, properties and vectors as mathematical
maps; an index is a set of ids, maps of lists, and the candidates of its vectors; a snapshot is two
maps of records and an index. An index is *faithful* to records if it files each of them under
exactly the keys that the record has: edges under their ends, nodes under their types and times,
and, where vectors are compared one by one, nodes under the names of their vectors. A unique key
leads to a node that has it, and to the only one as long as no two nodes share a key. Commits keep
all this (`commits`, `faithful`, `database`).

Floating-point numbers are held as their bits. The library compares and orders them by their bits;
scores and similarities come from outside and are taken as arguments.

## Trusted items

Calls into other crates go through small wrappers whose contracts Verus believes: the persistent
ordered map of `im` (`graph`), the concurrent map of `dashmap` (`counters`), header names and
values of `http` (`audit`), the checksum of `crc32fast` (`common`), and the clocks and the shared
pointer of the standard library (`clock`, `database`).
