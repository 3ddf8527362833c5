# orderbook-backend

Follows the order books of two venues, trades on paper against both of them at once, and serves
books, prices and the paper account over HTTP and websockets.

- `src/` is the verified library: decimals, books, the matching of orders, positions, prices, the
  rules by which the feeds are kept in sync, and what the server tells and takes.
- `app/` is the program around it: connections, timers, locks, JSON.
- `tests/` runs the library.

Arithmetic on decimals, and their texts, are those of the `rust_decimal` crate, called through the
trusted functions at the end of `src/decimal.rs`. What is exact is stated of them as such. A result
that had to be rounded has a name; how far it can be off is stated, and when there is one.
Identifiers come from the `uuid` crate.

Functions whose decimals overflow on some inputs ask in `requires` that they do not. Beside each
stands one that begins with `try_` and can be called with anything. Counts, waits and the limit of a
ping are 64-bit numbers: functions that add to one ask in `requires` for room.
