//! A flow-based dataflow core: processors joined by bounded FIFO connections,
//! through which flowfiles move under transactional processing sessions.

pub mod properties;
pub mod flowfile;
pub mod context;
pub mod connection;
pub mod session;
pub mod processor;
pub mod ownership;
pub mod graph;
