# matching_engine

A price-time priority matching engine for one instrument, with a small HTTP service around it.

## The library, `src/`

| module | what it holds |
| --- | --- |
| `types` | orders and their sides |
| `model` | what a book is: two sequences of resting orders in priority order, and how they react to an order |
| `orderbook` | the engine: a flat band of price levels, a three-level bitmap for the best price, and an arena of order slots |
| `half`, `bits` | one side of the book and its bitmap |
| `arena`, `levels`, `matching` | queues in the arena, levels as one sequence, how sweeps compose |
| `replay` | sequences of orders |
| `wire`, `binary` | the two formats in which orders arrive |
| `http`, `service` | requests, responses and what a request does to the book |
| `generator`, `bench` | a reproducible stream of orders and the fingerprint of all states it leads to |
| `laws`, `book_laws`, `wire_laws`, `layout_laws`, `http_laws`, `service_laws`, `text` | what holds of all of these, and bytes of text |

Every public function says in its contract what it returns or changes. The contracts of the book
speak of `BookView`: a client needs neither the arena nor the bitmap to know what an order does.

A book counts trades, volume, refused orders and quantities in 64 bits and numbers its order slots in
32. `OrderBook::fits` tells whether an order can be handled within these ranges; `OrderBook::submit`
asks for it.

## The programs, `app/`

The benchmark runs by default; `serve`, `author-protocol` and `growth` as the first argument select
the server and two further measurements.
