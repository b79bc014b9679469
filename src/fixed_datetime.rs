//! A fixed-width form of a timestamp: its tag, then the milliseconds since
//! the Unix epoch in eight bytes and the offset from UTC in seconds in four
//! bytes, both two's complement, least significant byte first. Such a form
//! travels as the payload of a blob.

use vstd::prelude::*;
use crate::error::Error;
use crate::types::CP_DATETIME;
use crate::varint::{lemma_pow256_small, pow256};
use crate::token::{le_bytes, le_value};
use crate::ser::push_le;
use crate::de::read_le;
use crate::datetime::{datetime_in_range, CPDateTime};

verus! {

/// An instant and its offset from UTC, held in the fixed-width form.
#[derive(Debug, Clone, Copy, PartialEq, Eq, Structural)]
pub struct ChainPackDateTime {
    /// Milliseconds since 1970-01-01T00:00:00Z.
    pub msec: i64,
    /// Seconds that local time is ahead of UTC.
    pub utc_offset: i32,
}

/// `v` in two's complement over `n` bytes.
pub open spec fn twos(v: int, n: nat) -> nat {
    if v < 0 {
        (v + pow256(n)) as nat
    } else {
        v as nat
    }
}

/// The signed number that `u` is in two's complement over `n` bytes.
pub open spec fn from_twos(u: nat, n: nat) -> int {
    if 2 * u >= pow256(n) {
        u - pow256(n)
    } else {
        u as int
    }
}

/// The thirteen bytes of `d`.
pub open spec fn fixed_bytes(d: ChainPackDateTime) -> Seq<u8> {
    seq![CP_DATETIME] + le_bytes(twos(d.msec as int, 8), 8) + le_bytes(
        twos(d.utc_offset as int, 4),
        4,
    )
}

/// The timestamp at the start of `s`; bytes after the thirteenth are not
/// looked at.
pub open spec fn parse_fixed(s: Seq<u8>) -> Result<ChainPackDateTime, Error> {
    if s.len() == 0 {
        Err(Error::Eof)
    } else if s[0] != CP_DATETIME {
        Err(Error::InvalidType)
    } else if s.len() < 13 {
        Err(Error::Eof)
    } else {
        let msec = from_twos(le_value(s.subrange(1, 9)), 8);
        let off = from_twos(le_value(s.subrange(9, 13)), 4);
        if datetime_in_range(msec, off) {
            Ok(ChainPackDateTime { msec: msec as i64, utc_offset: off as i32 })
        } else {
            Err(Error::InvalidDateTime)
        }
    }
}

impl From<CPDateTime> for ChainPackDateTime {
    fn from(d: CPDateTime) -> (r: Self)
        ensures
            r.msec == d.msec && r.utc_offset == d.utc_offset,
    {
        ChainPackDateTime { msec: d.msec, utc_offset: d.utc_offset }
    }
}

impl vstd::std_specs::convert::FromSpecImpl<CPDateTime> for ChainPackDateTime {
    open spec fn obeys_from_spec() -> bool {
        true
    }

    open spec fn from_spec(d: CPDateTime) -> Self {
        ChainPackDateTime { msec: d.msec, utc_offset: d.utc_offset }
    }
}

impl ChainPackDateTime {
    /// The thirteen bytes of this timestamp.
    pub fn to_bytes(&self) -> (r: Vec<u8>)
        ensures
            r@ == fixed_bytes(*self),
    {
        proof {
            lemma_pow256_small();
            assert(pow256(4) == 0x1_0000_0000) by {
                reveal_with_fuel(pow256, 5);
            }
        }
        let mut w: Vec<u8> = Vec::new();
        w.push(CP_DATETIME);
        let m: u64 = if self.msec < 0 {
            (self.msec + 0x7FFF_FFFF_FFFF_FFFF + 1) as u64 + 0x8000_0000_0000_0000
        } else {
            self.msec as u64
        };
        push_le(&mut w, m, 8);
        let o: u64 = if self.utc_offset < 0 {
            (self.utc_offset as i64 + 0x1_0000_0000) as u64
        } else {
            self.utc_offset as u64
        };
        push_le(&mut w, o, 4);
        assert(w@ =~= fixed_bytes(*self));
        w
    }

    /// Reads the thirteen bytes of a timestamp; refused when the input is
    /// shorter, does not start with the timestamp tag, or holds an instant
    /// or offset outside the calendar.
    pub fn from_bytes(v: &[u8]) -> (r: Result<Self, Error>)
        ensures
            r == parse_fixed(v@),
    {
        proof {
            lemma_pow256_small();
            assert(pow256(4) == 0x1_0000_0000) by {
                reveal_with_fuel(pow256, 5);
            }
        }
        if v.len() == 0 {
            return Err(Error::Eof);
        }
        if v[0] != CP_DATETIME {
            return Err(Error::InvalidType);
        }
        if v.len() < 13 {
            return Err(Error::Eof);
        }
        let m = read_le(v, 1, 8);
        let o = read_le(v, 9, 4);
        let msec: i64 = if m >= 0x8000_0000_0000_0000 {
            (m - 0x8000_0000_0000_0000) as i64 - 0x7FFF_FFFF_FFFF_FFFF - 1
        } else {
            m as i64
        };
        let off: i64 = if o >= 0x8000_0000 {
            o as i64 - 0x1_0000_0000
        } else {
            o as i64
        };
        match CPDateTime::new(msec, off as i32) {
            Ok(d) => Ok(ChainPackDateTime { msec: d.msec, utc_offset: d.utc_offset }),
            Err(e) => Err(e),
        }
    }
}

/// The fixed-width bytes read back as the timestamp they were made from,
/// as long as the calendar holds it.
pub proof fn lemma_fixed_round_trip(d: ChainPackDateTime)
    requires
        datetime_in_range(d.msec as int, d.utc_offset as int),
    ensures
        parse_fixed(fixed_bytes(d)) == Ok::<ChainPackDateTime, Error>(d),
{
    lemma_pow256_small();
    assert(pow256(4) == 0x1_0000_0000) by {
        reveal_with_fuel(pow256, 5);
    }
    let s = fixed_bytes(d);
    let a = le_bytes(twos(d.msec as int, 8), 8);
    let b = le_bytes(twos(d.utc_offset as int, 4), 4);
    crate::token::lemma_le_value_le_bytes(twos(d.msec as int, 8), 8);
    crate::token::lemma_le_value_le_bytes(twos(d.utc_offset as int, 4), 4);
    assert(s.subrange(1, 9) =~= a);
    assert(s.subrange(9, 13) =~= b);
    vstd::arithmetic::div_mod::lemma_small_mod(twos(d.msec as int, 8), pow256(8));
    vstd::arithmetic::div_mod::lemma_small_mod(twos(d.utc_offset as int, 4), pow256(4));
}

} // verus!
