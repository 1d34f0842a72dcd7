//! A bytecode-driven execution engine over a price-sharded limit order book.
//!
//! A caller builds a program (an ordered list of instructions) and picks a
//! shard count; the engine runs the program linearly, placing and matching
//! resident orders in the book and maintaining two monotonic summary
//! scalars (best bid and best ask).

pub mod instructions;
pub mod orderbook;
pub mod vm;
