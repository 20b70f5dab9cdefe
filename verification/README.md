# lob

A limit-order-book core with machine-checked contracts, the event feed that drives
it, and the plumbing that carries its state to readers. The library in `src/` is
written in Verus: every function states what it returns or changes, and the verifier
checks the code against it. The programs in `app/` are ordinary Rust around it.

## The library

Books and events
- `price`, `event`: ticks, lots and book events
- `ladder`, `book`: the observable state of a book, and the trait that all books share
- `btree`, `sorted_vec`, `rev_vec`, `flat`: four books that are observed alike

Feed
- `corpus`: the file format of recorded events
- `rng`, `synthetic`, `gen_cli`: reproducible loads, and the program that writes them
- `decimal`, `capture`, `session`, `wire`, `http`, `calendar`, `cli`: recording a live
  feed, from the exchange's messages to events in exact ticks

Pipeline
- `seqlock`: a snapshot cell for one writer and many readers
- `ring`, `ring_model`: a broadcast ring for one producer and many consumers
- `pack`, `engine`: events as records, and the assembled pipeline

Markets
- `json`, `float`, `text`, `table`: what messages are made of
- `market`, `outbox`, `streams`, `metrics`: records, batches, connections and commands
- `binance`, `binance2`, `bybit`, `kraken`, `hyperliquid`: what each exchange says
- `arbitrage`, `reply`: best prices over several exchanges

Measurement
- `clock`, `recorder`, `harness`, `workload`, `measure`, `schedule`, `search`, `sweep`:
  what is timed, how, and what the numbers show
- `figures`, `provenance`: what is plotted, and on which machine it was measured

## Laws

A function whose name begins with `law_` states a property of the library as a whole,
over the same specifications that the contracts use; its documentation says it in
words. Among them: any two books that take the same stream are observed alike; what is
written to a corpus is read back; no torn snapshot or record is ever kept; a lapped
consumer is told exactly how much it lost; a recording loses no update; a price is
turned into ticks without rounding.

Atomic memory is seen by the verifier as a source of arbitrary values. The contracts of
`seqlock`, `ring` and `metrics` speak of records of the stores and loads, in order, and the
results of `seqlock` and `ring` are stated as what the loads on record come to, with every
version and stamp compared. Such a record is kept beside the accesses, in the same few
lines, and is no evidence of them: that each entry stands for an access that was made is
read off the code. The laws on torn snapshots and records, and on what is lost, take the
loads on record to come from the memory that the recorded stores build, one store after
the other; how weaker memory orders such accesses is not modelled. In the same way a
`Stopwatch` of `clock` accounts for its readings and for the book at each of them.

## What is trusted

Calls into other crates and into parts of the standard library stand behind small
wrappers; the comment above each says what is believed of the call. Floating-point
numbers occur in the library as bit patterns that are compared, never as results of
arithmetic: reading them from text and computing with them is left to the programs.

## The programs

`lob gen`, `lob record`, `lob collect`, `lob arbitrage`, `lob arb-v1`, `lob engine`,
`lob bench`. The collectors read `config.json`: the address of the store under `redis`,
and for each exchange its name and symbols.
