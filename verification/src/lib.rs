//! An order book for one instrument, rebuilt from a snapshot and a stream of
//! price-level updates, with a bounded view of its best levels and a
//! fixed-capacity running average for latency samples.
//!
//! * [`binary64`]: quantities by the encoding of the numbers a feed quotes;
//! * [`types`]: validated prices and volumes, and the sides of a book;
//! * [`levels`]: one side of a book, ordered from the best price outward;
//! * [`book`]: the book, its updates and its best levels;
//! * [`polymarket`]: the messages of a feed and the book they keep up to date;
//! * [`chart`]: the arithmetic of a depth chart;
//! * [`ringbuffer`]: the running average;
//! * [`error`]: why an update is refused.
//!
//! Every function here is verified against its contract. The contracts speak
//! of a book as two maps from price key to volume, of a buffer as the
//! sequence of the samples it holds.

pub mod binary64;
pub mod error;
pub mod types;
pub mod polymarket;
pub mod levels;
pub mod book;
pub mod ringbuffer;
pub mod chart;
