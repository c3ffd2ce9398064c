//! Decoding of radar CAN traffic: bit-field extraction, the MCU and radar
//! packet formats, the signal matrix, ASC trace lines and round-trip timing.

pub mod bits;
pub mod error;
pub mod text;
pub mod endian;
pub mod msg;
pub mod matrix;
pub mod parser;
pub mod asc;
pub mod charset;
pub mod rtt;
pub mod datagram;
pub mod dbc;
pub mod trace;
pub mod display;
