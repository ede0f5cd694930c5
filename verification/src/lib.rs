//! A bounded single-producer / single-consumer ring buffer with batched
//! sessions and deferred disposal, and beside it the two codecs of the
//! player: Ogg pages and their multiplexer, and CD+G sectors in an Ogg stream.

pub mod cursor;
pub mod model;
pub mod ringbuffer;
pub mod crc;
pub mod ogg;
pub mod cdg;
