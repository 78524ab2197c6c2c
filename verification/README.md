# sriov-mac-sync

Hosts behind a Linux bridge are invisible to the embedded switch of an SR-IOV
card. This library decides which of their addresses belong in the unicast filter
of the bridge's uplink, puts them there, takes them out again, and keeps a note
of everything it put in, so that nothing else is ever taken out.

Three things hold throughout, and are proved:

1. An address learnt on the wire is never registered.
2. A virtual function's own address is never registered, by an answer that the
   driver gave for the occasion.
3. Only what was registered here is ever removed: the note takes an address
   before the card does, and a line leaves the note only after the card has let
   the entry go.

## Layout

- `src/` is the library, written in Verus.
  - `mac`, `text`, `order`, `keyed`, `graph`: addresses, texts, orders, sets and
    maps with a model, reachability.
  - `netlink`: what the library needs from a host, and `Recorded`, a host with a
    ghost record of everything it was asked. All contracts about effects are
    stated over that record.
  - `topology`, `sysfs`: which interface leads where, and which are uplinks.
  - `sync`: the notes, the memory of quiet addresses, the full pass
    (`reconcile`), the answer to a batch of notifications (`apply`), the flush
    and the orphans. The files that end in `laws` hold what is true of these as
    a whole. What an operator should read is collected line by line (`journal`),
    for whoever runs the library to print.
- `app/` answers the library's questions on a real machine: files, locks, clocks
  and `/sys`.
- `tests/` runs the library against a host in memory.
