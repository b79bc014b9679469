//! The single-byte type tags of the wire format.
//!
//! Bytes `0x00..=0x3F` carry a small unsigned integer in the tag itself and
//! bytes `0x40..=0x7F` a small signed one (value = byte - 64); the named
//! tags below all lie outside those two ranges.

use vstd::prelude::*;

verus! {

pub const CP_NULL: u8 = 0x80;

pub const CP_UINT: u8 = 0x81;

pub const CP_INT: u8 = 0x82;

pub const CP_DOUBLE: u8 = 0x83;

pub const CP_BLOB: u8 = 0x85;

pub const CP_STRING: u8 = 0x86;

pub const CP_LIST: u8 = 0x88;

pub const CP_MAP: u8 = 0x89;

pub const CP_IMAP: u8 = 0x8A;

pub const CP_DECIMAL: u8 = 0x8C;

pub const CP_DATETIME: u8 = 0x8D;

pub const CP_FALSE: u8 = 0xFD;

pub const CP_TRUE: u8 = 0xFE;

pub const CP_TERM: u8 = 0xFF;

/// Tags below this byte carry their value inline.
pub const INLINE_END: u8 = 0x80;

/// Inline tags from this byte on carry a signed value.
pub const INLINE_INT_BASE: u8 = 0x40;

} // verus!
