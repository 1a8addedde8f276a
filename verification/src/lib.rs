//! A document archive: clients publish text documents, search for the
//! documents that contain a word, and retrieve a document by its identifier.
//!
//! The crate holds the archive's logic: the sharded multimap behind the
//! inverted index, the document store, the binary wire protocol, the queue
//! of the worker pool and the server's decisions. Sockets, threads and the
//! command line live with the program that embeds it.
//!
//! The types here are plain values. What changes one takes `&mut self`, so
//! that two changes never happen at once and every contract can say what
//! the value is afterwards. A program that serves clients from several
//! threads keeps the server behind a lock.

pub mod database;
pub mod format;
pub mod framing;
pub mod hashing;
pub mod message;
pub mod multimap;
pub mod pool;
pub mod server;
pub mod text;
pub mod wire;
