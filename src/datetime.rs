//! Instants with a fixed offset from UTC, and their packing into one signed
//! integer.
//!
//! The packed value counts milliseconds from 2018-02-02T00:00:00Z. When the
//! instant falls on a whole second it counts seconds instead and sets the
//! second-lowest bit. When the offset is not zero, the offset in quarter
//! hours (seven bits, two's complement) is put below the count and the
//! lowest bit is set.

use vstd::prelude::*;
use crate::error::Error;

verus! {

/// Milliseconds from the Unix epoch to 2018-02-02T00:00:00Z.
pub const SHV_EPOCH_MSEC: i64 = 1517529600000;

/// The earliest instant that the calendar holds, -262143-01-01T00:00:00Z,
/// in milliseconds since the Unix epoch.
pub const MIN_MSEC: i64 = -8334601228800000;

/// The latest instant that the calendar holds, 262142-12-31T23:59:59.999Z,
/// in milliseconds since the Unix epoch.
pub const MAX_MSEC: i64 = 8210266876799999;

/// An instant with the offset of its local time from UTC.
#[derive(Debug, Clone, Copy, PartialEq, Eq, Structural)]
pub struct CPDateTime {
    /// Milliseconds since 1970-01-01T00:00:00Z.
    pub msec: i64,
    /// Seconds that local time is ahead of UTC.
    pub utc_offset: i32,
}

/// Whether the calendar can hold the instant and the offset.
pub open spec fn datetime_in_range(msec: int, utc_offset: int) -> bool {
    MIN_MSEC <= msec <= MAX_MSEC && -86_400 < utc_offset < 86_400
}

/// Relies on `chrono::DateTime::from_timestamp_millis`, which returns `Some`
/// exactly for the instants from -262143-01-01 to the end of 262142-12-31.
#[verifier::external_body]
fn millis_in_range(msec: i64) -> (r: bool)
    ensures
        r == (MIN_MSEC <= msec <= MAX_MSEC),
{
    chrono::DateTime::from_timestamp_millis(msec).is_some()
}

/// Relies on `chrono::FixedOffset::east_opt`, which returns `Some` exactly
/// for offsets strictly within one day.
#[verifier::external_body]
fn offset_in_range(secs: i32) -> (r: bool)
    ensures
        r == (-86_400 < secs < 86_400),
{
    chrono::FixedOffset::east_opt(secs).is_some()
}

impl CPDateTime {
    /// The instant `msec` milliseconds after the Unix epoch, seen at
    /// `utc_offset` seconds east of UTC; refused outside the calendar.
    pub fn new(msec: i64, utc_offset: i32) -> (r: Result<Self, Error>)
        ensures
            datetime_in_range(msec as int, utc_offset as int) ==> r == Ok::<Self, Error>(
                CPDateTime { msec, utc_offset },
            ),
            !datetime_in_range(msec as int, utc_offset as int) ==> r == Err::<Self, Error>(
                Error::InvalidDateTime,
            ),
    {
        if millis_in_range(msec) && offset_in_range(utc_offset) {
            Ok(CPDateTime { msec, utc_offset })
        } else {
            Err(Error::InvalidDateTime)
        }
    }
}

/// Division that rounds toward zero, as Rust's `/` does.
pub open spec fn trunc_div(a: int, b: int) -> int {
    if a >= 0 {
        a / b
    } else {
        -((-a) / b)
    }
}

/// The offset in whole quarter hours, rounded toward zero.
pub open spec fn tz_quarters(utc_offset: int) -> int {
    trunc_div(trunc_div(utc_offset, 60), 15)
}

/// Whether the time-zone field carries the offset: there is a whole minute
/// of it.
pub open spec fn has_tz(utc_offset: int) -> bool {
    trunc_div(utc_offset, 60) != 0
}

/// Whether the instant falls on a whole second.
pub open spec fn whole_second(msec: int) -> bool {
    (msec - SHV_EPOCH_MSEC) % 1000 == 0
}

/// The integer that carries `dt` on the wire.
pub open spec fn datetime_payload(dt: CPDateTime) -> int {
    let rel = dt.msec - SHV_EPOCH_MSEC;
    let count = if whole_second(dt.msec as int) {
        rel / 1000
    } else {
        rel
    };
    let with_tz = if has_tz(dt.utc_offset as int) {
        count * 128 + tz_quarters(dt.utc_offset as int) % 128
    } else {
        count
    };
    with_tz * 4 + (if has_tz(dt.utc_offset as int) {
        1int
    } else {
        0int
    }) + (if whole_second(dt.msec as int) {
        2int
    } else {
        0int
    })
}

/// Whether `dt` can be packed: the calendar holds it and its offset fits in
/// seven bits of quarter hours (-16:00 to +15:45).
pub open spec fn datetime_encodable(dt: CPDateTime) -> bool {
    datetime_in_range(dt.msec as int, dt.utc_offset as int) && -64 <= tz_quarters(
        dt.utc_offset as int,
    ) <= 63
}

/// Whether the packed `v` carries a time-zone offset: its lowest bit.
pub open spec fn payload_has_tz(v: int) -> bool {
    v % 4 == 1 || v % 4 == 3
}

/// Whether the packed `v` counts whole seconds: its second-lowest bit.
pub open spec fn payload_whole_second(v: int) -> bool {
    v % 4 >= 2
}

/// The count of seconds or milliseconds in the packed `v`.
pub open spec fn payload_count(v: int) -> int {
    if payload_has_tz(v) {
        v / 4 / 128
    } else {
        v / 4
    }
}

/// The instant (milliseconds since the Unix epoch) that the packed `v`
/// stands for.
pub open spec fn payload_msec(v: int) -> int {
    (if payload_whole_second(v) {
        payload_count(v) * 1000
    } else {
        payload_count(v)
    }) + SHV_EPOCH_MSEC
}

/// The offset from UTC in seconds that the packed `v` carries: seven bits
/// of quarter hours, two's complement.
pub open spec fn payload_offset(v: int) -> int {
    if payload_has_tz(v) {
        let tz = (v / 4) % 128;
        (if tz >= 64 {
            tz - 128
        } else {
            tz
        }) * 900
    } else {
        0
    }
}

/// Floor division and the remainder that goes with it.
fn floor_div_mod(v: i64, d: i64) -> (r: (i64, i64))
    requires
        d > 0,
    ensures
        r.0 == v as int / d as int,
        r.1 == v as int % d as int,
{
    if v >= 0 {
        (v / d, v % d)
    } else {
        let a: i64 = -(v + 1);
        let q: i64 = a / d;
        let m: i64 = a % d;
        proof {
            vstd::arithmetic::div_mod::lemma_fundamental_div_mod(a as int, d as int);
            assert(v == (-q - 1) * d + (d - 1 - m)) by (nonlinear_arith)
                requires
                    a == d * q + m,
                    a == -(v + 1),
            ;
            vstd::arithmetic::div_mod::lemma_fundamental_div_mod_converse(
                v as int,
                d as int,
                -q - 1,
                d - 1 - m,
            );
        }
        (-q - 1, d - 1 - m)
    }
}

/// Rust's `/` by a positive divisor.
fn trunc_div_i64(a: i64, b: i64) -> (r: i64)
    requires
        b > 0,
        a > i64::MIN,
    ensures
        r == trunc_div(a as int, b as int),
{
    if a >= 0 {
        a / b
    } else {
        -((-a) / b)
    }
}

/// Packs `dt` into the integer that carries it on the wire; refused when
/// the calendar cannot hold it or its offset needs more than seven bits of
/// quarter hours.
pub fn datetime_to_payload(dt: &CPDateTime) -> (r: Result<i64, Error>)
    ensures
        datetime_encodable(*dt) ==> r == Ok::<i64, Error>(datetime_payload(*dt) as i64)
            && i64::MIN < datetime_payload(*dt) <= i64::MAX,
        !datetime_encodable(*dt) ==> r == Err::<i64, Error>(Error::InvalidDateTime),
{
    if !(millis_in_range(dt.msec) && offset_in_range(dt.utc_offset)) {
        return Err(Error::InvalidDateTime);
    }
    let minutes = trunc_div_i64(dt.utc_offset as i64, 60);
    let quarters = trunc_div_i64(minutes, 15);
    if quarters < -64 || quarters > 63 {
        return Err(Error::InvalidDateTime);
    }
    let rel: i64 = dt.msec - SHV_EPOCH_MSEC;
    let (secs, sub) = floor_div_mod(rel, 1000);
    let whole = sub == 0;
    let count: i64 = if whole {
        secs
    } else {
        rel
    };
    let has = minutes != 0;
    let with_tz: i64 = if has {
        count * 128 + floor_div_mod(quarters, 128).1
    } else {
        count
    };
    let payload: i64 = with_tz * 4 + (if has {
        1i64
    } else {
        0i64
    }) + (if whole {
        2i64
    } else {
        0i64
    });
    Ok(payload)
}

/// Unpacks the integer `v` that carries a timestamp on the wire; refused
/// when the instant lies outside the calendar.
pub fn datetime_from_payload(v: i64) -> (r: Result<CPDateTime, Error>)
    ensures
        datetime_in_range(payload_msec(v as int), payload_offset(v as int)) ==> r == Ok::<
            CPDateTime,
            Error,
        >(CPDateTime { msec: payload_msec(v as int) as i64, utc_offset: payload_offset(v as int) as i32 }),
        !datetime_in_range(payload_msec(v as int), payload_offset(v as int)) ==> r == Err::<
            CPDateTime,
            Error,
        >(Error::InvalidDateTime),
{
    let (q4, flags) = floor_div_mod(v, 4);
    let has = flags == 1 || flags == 3;
    let whole = flags >= 2;
    let mut count: i64 = q4;
    let mut offset: i32 = 0;
    if has {
        let (c, tz) = floor_div_mod(q4, 128);
        count = c;
        offset = if tz >= 64 {
            ((tz - 128) * 900) as i32
        } else {
            (tz * 900) as i32
        };
    }
    let bound: i64 = if whole {
        9_000_000_000_000
    } else {
        9_000_000_000_000_000
    };
    if count < -bound || count > bound {
        return Err(Error::InvalidDateTime);
    }
    let msec: i64 = (if whole {
        count * 1000
    } else {
        count
    }) + SHV_EPOCH_MSEC;
    CPDateTime::new(msec, offset)
}

/// Unpacking what packing gives back returns the instant exactly, and the
/// offset rounded toward zero to whole quarter hours; so an offset that is a
/// whole number of quarter hours comes back unchanged.
pub proof fn lemma_datetime_round_trip(dt: CPDateTime)
    requires
        datetime_encodable(dt),
    ensures
        payload_msec(datetime_payload(dt)) == dt.msec,
        payload_offset(datetime_payload(dt)) == tz_quarters(dt.utc_offset as int) * 900,
        dt.utc_offset % 900 == 0 ==> payload_offset(datetime_payload(dt)) == dt.utc_offset,
{
    let off = dt.utc_offset as int;
    let rel = dt.msec - SHV_EPOCH_MSEC;
    let whole = whole_second(dt.msec as int);
    let has = has_tz(off);
    let q = tz_quarters(off);
    let count = if whole {
        rel / 1000
    } else {
        rel
    };
    let with_tz = if has {
        count * 128 + q % 128
    } else {
        count
    };
    let f: int = (if has {
        1int
    } else {
        0int
    }) + (if whole {
        2int
    } else {
        0int
    });
    let p = datetime_payload(dt);
    assert(p == with_tz * 4 + f);
    vstd::arithmetic::div_mod::lemma_fundamental_div_mod_converse(p, 4, with_tz, f);
    if has {
        vstd::arithmetic::div_mod::lemma_fundamental_div_mod_converse(
            with_tz,
            128,
            count,
            q % 128,
        );
        if q < 0 {
            vstd::arithmetic::div_mod::lemma_fundamental_div_mod_converse(q, 128, -1, q + 128);
        } else {
            vstd::arithmetic::div_mod::lemma_fundamental_div_mod_converse(q, 128, 0, q);
        }
    } else {
        assert(q == 0);
    }
    if whole {
        vstd::arithmetic::div_mod::lemma_fundamental_div_mod(rel, 1000);
    }
    if off % 900 == 0 {
        vstd::arithmetic::div_mod::lemma_fundamental_div_mod(off, 900);
        let k = off / 900;
        assert(trunc_div(off, 60) == 15 * k);
        assert(trunc_div(15 * k, 15) == k);
    }
}

/// The packed form of a timestamp that can be packed stays well inside
/// the range of `i64`.
pub proof fn lemma_payload_bounds(dt: CPDateTime)
    requires
        datetime_encodable(dt),
    ensures
        -0x4000_0000_0000_0000 < datetime_payload(dt) < 0x4000_0000_0000_0000,
{
    let rel = dt.msec - SHV_EPOCH_MSEC;
    if whole_second(dt.msec as int) {
        if rel >= 0 {
            assert(rel / 1000 <= rel);
        } else {
            assert(rel / 1000 >= rel);
        }
    }
    vstd::arithmetic::div_mod::lemma_mod_bound(tz_quarters(dt.utc_offset as int), 128);
}

} // verus!
