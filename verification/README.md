# seosae

A stock exchange order book engine (light). A new order drawn at random trades
with the resting orders of the other side at exactly its price, and what is left
of it rests in the book. An order read from a data file is added whole to its
own side first and then trades with the other side, so it rests at its full
quantity even when those trades fill it. The book is shown with the
quantities at each price summed.

- `src/` is the library, with its contracts and proofs:
  - `order.rs`: orders, their sides, and the summing of quantities by price level;
  - `sorting.rs`: the stable sort of a side by price;
  - `matching.rs`: matching a new order against one side, with its laws;
  - `orderbook.rs`: the book, its steps for a new order, and its invariant;
  - `text.rs`: the text of prices, orders and log records, and the reading of
    the fields of a data record;
  - `generation.rs`: the side, quantity and price mean of a generated order.
- `app/` is the program: threads, the console, the log and data files, and the
  normal draw of a generated price.
- Prices are held in cents; a data file price that is not a whole number of
  cents is refused.
