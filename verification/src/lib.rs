//! A small DNS message library: a fixed-size packet buffer with a byte cursor,
//! and the header, question, record and packet formats read from and written to it.

pub mod bpb;
pub mod dns;
pub mod error;
pub mod name;
pub mod server;
