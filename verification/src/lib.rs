//! A capacity-bounded key-value cache with least-recently-used eviction, and
//! the rules of the protocol that serves it to remote clients.
//!
//! * [`store`] holds the cache: a slot array of fixed length, threaded by
//!   integer links into a recency chain, with a key index beside it.
//! * [`recency`] is the cache as mathematics: a sequence of entries in
//!   recency order, what a lookup and an update do to it, and what follows
//!   for every sequence of operations.
//! * [`message`] holds the requests and responses of the protocol.
//! * [`wire`] frames messages on a byte stream: a length of four bytes, most
//!   significant first, then the payload as text.
//! * [`handler`] holds the rules of one connection: which cache operation a
//!   request stands for, what is answered, and when the connection closes.
//! * [`config`] holds the server's settings and reads them off a command line.
//! * [`text`] compares strings and reads and writes decimal numbers.
//!
//! The library does no input or output. Whoever uses it reads and writes the
//! sockets, and turns the text of a payload into a message and back.

pub mod config;
pub mod handler;
pub mod message;
pub mod recency;
pub mod store;
pub mod text;
pub mod wire;
