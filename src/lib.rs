//! The ChainPack wire format: a compact, self-describing binary encoding
//! with variable-length integers, timestamps with an optional time-zone
//! offset, decimals and unterminated containers closed by a terminator byte.

pub mod error;
pub mod types;
pub mod varint;
pub mod decimal;
pub mod datetime;
pub mod token;
pub mod ser;
pub mod de;
pub mod istruct;
pub mod fixed_datetime;
