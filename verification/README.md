# rayzor_runtime

The runtime that compiled Haxe programs call: strings, arrays, maps, bytes, anonymous objects and
reflection, JSON, regular expressions, dates, compression, threads and futures, exceptions and
stack traces, allocators, and quantised tensors. It is written in Verus: every function of the
library has a contract, and the contracts are proved.

- `src/` is the library. Values that compiled code holds by address are owned values, handles into
  a store, or `Option`s where an address may be null; state that a process keeps is passed in.
  Floating-point numbers are their bits, and arithmetic on them is passed in as functions.
- `tests/` runs it on concrete values.
- `app/` is the edge: files, the environment, standard output, threads, signals, memory from the
  system, calls of compiled code and floating-point arithmetic.

The library calls `regex`, `chrono` and `flate2`. Each of those calls stands in a small function
whose contract is believed and not proved; its doc comment says what is believed. What such a call
returns has a name where it is a function of what it is given. Local time and the current time
depend on the machine, so only what holds on every machine is stated of them.

Proof functions whose names begin with `law_` state what holds across calls.
