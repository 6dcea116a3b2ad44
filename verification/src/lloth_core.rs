//! Sessions without a clock, whose updates are acknowledged.

pub mod client_server;
