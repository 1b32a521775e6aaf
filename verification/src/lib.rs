//! Stock exchange order book: orders, price-time matching at a single price,
//! the two sorted sides of the book, and the text the engine shows and logs.
pub mod order;
pub mod sorting;
pub mod matching;
pub mod orderbook;
pub mod text;
pub mod generation;

