# kvdb-rs

A Redis-compatible key-value database whose logic is verified with Verus: the
wire format, the commands on strings, hashes, lists, sets, sorted sets,
bitmaps and streams, transactions, publish and subscribe, script calls,
configuration, replication and cluster state.

## Layout

- `src/` is the library. Every function states what it returns and changes.
  - `order`, `codec`, `text`, `glob`, `score`, `encoding`, `types`: byte
    strings, patterns, keys and records.
  - `table`, `storage`: sorted column families, batches and the journal of what
    was written.
  - `protocol`, `error`: values and errors on the wire.
  - `cmd`: the commands. `cmd::dispatch` goes from a command's name to what it
    does; `cmd::laws`, `cmd::value_laws`, `cmd::hash_laws`,
    `cmd::zset_laws`, `cmd::bitmap_laws` and `cmd::stream_laws` hold what is
    proved of several commands together. `cmd::reopen` starts from a store that
    was written before.
  - `server`, `pubsub`, `lua`, `cluster`, `replication`, `config`,
    `http_server`, `benchmark`, `clock`: the parts of a server around its data.
- `tests/` runs the library, in part over the bytes of the wire.
- `app/` is the program: sockets, HTTP, RocksDB, the Lua interpreter, threads
  and floating point arithmetic.

## How the parts work together

The store is a set of sorted tables in memory. A command changes the tables and
notes the batches that it wrote in a journal. The program writes the journal to
RocksDB after every command, and reads RocksDB into the tables when it starts.

Scores of sorted sets are carried as the bits of their floating point numbers.
The library orders and stores them; the program reads, adds and prints them.

What a command needs of chance and time comes to it as a moment: the clock, and
a version that is greater than all that were handed out before and in part
random. New values get the version, and SPOP takes its choice from it.

A script command comes back as a script that is to be run. The program runs it
in the Lua interpreter and sends the commands that it calls through the same
dispatch.

## What is taken as given

Calls into other crates stand behind small functions whose contracts are not
proved: checksums (`crc16`, `sha1`), concurrent tables (`dashmap`), random
numbers (`rand`), the machine's memory (`sysinfo`), the clock, sorting and a few
text functions of the standard library. The doc comment of each says which
function it calls and what is claimed of it.
