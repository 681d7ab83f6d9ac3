# cex_zkp

A centralized-exchange simulation whose core is written in Verus and proved
against its contracts: a price-time priority order book, the leaves of a Merkle
sum tree of user balances with Poseidon hashing, the witness of the circuit that
proves a parent relation of that tree, and the decisions of an order-flow
simulator and of the administration endpoints.

## Layout

- `src/decimal.rs`: decimals as mantissa and scale, with `rust_decimal` doing the
  arithmetic behind specified wrappers.
- `src/types.rs`, `src/arena.rs`, `src/book_model.rs`, `src/order_book.rs`:
  orders and trades, the slot map that stores resting orders, the mathematical
  model of a book, and the executable book proved against it.
- `src/book_laws.rs`: properties across operations (quantity conservation,
  self-trade prevention, price and time priority, cancel undoing add, listings
  agreeing with the book).
- `src/poseidon.rs`, `src/tree.rs`, `src/circuit.rs`: Poseidon hashing, Merkle
  leaves from balance snapshots, and the inputs and carry bits of the parent
  relation circuit.
- `src/text.rs`, `src/state.rs`, `src/simulator.rs`, `src/admin.rs`: text
  helpers, simulator and fund state, simulator decisions, administration figures.
- `tests/`: tests of the library.
- `app/`: the HTTP service (axum), the simulator worker's I/O, database reads,
  and the arkworks constraint system, which implements an arkworks trait and
  runs its gadgets.
