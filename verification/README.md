# utdnsmasq

A small DNS forwarder and DHCP server whose logic is written and proved
in Verus.

- `src/` is the verified library: DNS and DHCP packet handling, the cache
  of answers and its recency list, the table of forwarded queries, the
  lease database, the configuration readers (`config.rs` for the file and
  command line the program uses, `opts.rs` for the keyword reader), the
  choice of interfaces and upstream servers (`network.rs`), the lease file
  lines (`leasefile.rs`) and the texts that are logged (`logtext.rs`).
  Each public function states what it returns in `ensures`; the laws that
  relate several functions are public proof functions named `law_...`.
- `app/` is the program around it: command line, files, sockets, signals
  and the main loop.  It performs what the library decides.
- `tests/` runs the library on concrete values.
