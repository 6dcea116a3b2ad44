//! Channels that sessions send and receive packets through.

pub mod tcp;
