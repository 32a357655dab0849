//! An embedded key-value store whose byte-string keys are partitioned into
//! named column families.
//!
//! The store is a sequential state machine: every operation is a function
//! from the current contents (and a request) to the next contents (and a
//! reply), and each carries a contract over a mathematical model of the
//! contents. Sharing the store between connections and moving bytes to and
//! from files and sockets is left to the program built around it.

pub mod byte_order;
pub mod sorted_map;
pub mod common;
pub mod families;
pub mod scan;
pub mod snapshot;
pub mod storage;
pub mod server;
