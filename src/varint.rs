//! Variable-length integers.
//!
//! Both forms count the leading one bits of the first byte to give the
//! length: `0xxxxxxx` is one byte, `10xxxxxx` two, `110xxxxx` three,
//! `1110xxxx` four, and `1111nnnn` is followed by `nnnn + 4` bytes. The
//! bits of the first byte that the length leaves free are the most
//! significant bits of the value, the following bytes the rest, most
//! significant first. The signed form stores sign and magnitude: the bit
//! right after the length prefix (in the long form, the top bit of the first
//! byte after the prefix byte) is the sign.

use vstd::prelude::*;
use vstd::arithmetic::div_mod::{lemma_breakdown, lemma_fundamental_div_mod_converse, lemma_div_denominator};
use crate::error::Error;

verus! {

/// 256 to the power `n`.
pub open spec fn pow256(n: nat) -> nat
    decreases n,
{
    if n == 0 {
        1
    } else {
        256 * pow256((n - 1) as nat)
    }
}

/// The `n` bytes that hold `v` modulo `256^n`, most significant first.
pub open spec fn be_bytes(v: nat, n: nat) -> Seq<u8>
    decreases n,
{
    if n == 0 {
        seq![]
    } else {
        be_bytes(v / 256, (n - 1) as nat).push((v % 256) as u8)
    }
}

/// The number that the bytes `s` spell, most significant first.
pub open spec fn be_value(s: Seq<u8>) -> nat
    decreases s.len(),
{
    if s.len() == 0 {
        0
    } else {
        (be_value(s.drop_last()) * 256 + s.last()) as nat
    }
}

/// How many bytes `v` needs (at least one).
pub open spec fn byte_len(v: nat) -> nat
    decreases v,
{
    if v < 256 {
        1
    } else {
        1 + byte_len(v / 256)
    }
}

/// The shortest unsigned encoding of `v`.
pub open spec fn varuint_bytes(v: nat) -> Seq<u8> {
    if v < 0x80 {
        seq![v as u8]
    } else if v < 0x4000 {
        seq![(0x80 + v / 0x100) as u8] + be_bytes(v, 1)
    } else if v < 0x20_0000 {
        seq![(0xC0 + v / 0x1_0000) as u8] + be_bytes(v, 2)
    } else if v < 0x1000_0000 {
        seq![(0xE0 + v / 0x100_0000) as u8] + be_bytes(v, 3)
    } else {
        seq![(0xF0 + byte_len(v) - 4) as u8] + be_bytes(v, byte_len(v))
    }
}

/// Total length of a variable-length integer whose first byte is `b`.
pub open spec fn varint_len(b: u8) -> nat {
    if b < 0x80 {
        1
    } else if b < 0xC0 {
        2
    } else if b < 0xE0 {
        3
    } else if b < 0xF0 {
        4
    } else {
        (b - 0xF0 + 5) as nat
    }
}

/// The value bits that the first byte `b` of a short unsigned form carries.
pub open spec fn uint_head_bits(b: u8) -> nat {
    if b < 0x80 {
        b as nat
    } else if b < 0xC0 {
        (b - 0x80) as nat
    } else if b < 0xE0 {
        (b - 0xC0) as nat
    } else if b < 0xF0 {
        (b - 0xE0) as nat
    } else {
        0
    }
}

/// The value of the unsigned integer at the start of `s`, which holds at
/// least `varint_len(s[0])` bytes.
pub open spec fn varuint_value(s: Seq<u8>) -> nat {
    let len = varint_len(s[0]);
    uint_head_bits(s[0]) * pow256((len - 1) as nat) + be_value(s.subrange(1, len as int))
}

/// The largest `u64`.
pub open spec fn u64_limit() -> nat {
    0xFFFF_FFFF_FFFF_FFFF
}


/// The magnitude of `v`.
pub open spec fn abs(v: int) -> nat {
    if v < 0 {
        (-v) as nat
    } else {
        v as nat
    }
}

/// `bit` where `neg` holds, else zero.
pub open spec fn sign_bit(neg: bool, bit: nat) -> nat {
    if neg {
        bit
    } else {
        0
    }
}

/// The shortest signed encoding of `v`, for `|v| < 2^63`.
pub open spec fn varint_bytes(v: int) -> Seq<u8> {
    let m = abs(v);
    let neg = v < 0;
    if m < 0x40 {
        seq![(m + sign_bit(neg, 0x40)) as u8]
    } else if m < 0x2000 {
        seq![(0x80 + sign_bit(neg, 0x20) + m / 0x100) as u8] + be_bytes(m, 1)
    } else if m < 0x10_0000 {
        seq![(0xC0 + sign_bit(neg, 0x10) + m / 0x1_0000) as u8] + be_bytes(m, 2)
    } else if m < 0x800_0000 {
        seq![(0xE0 + sign_bit(neg, 0x08) + m / 0x100_0000) as u8] + be_bytes(m, 3)
    } else {
        let n = byte_len(2 * m);
        seq![(0xF0 + n - 4) as u8] + be_bytes(m + sign_bit(neg, 128 * pow256((n - 1) as nat)), n)
    }
}

/// The weight of the sign bit in a short signed form whose first byte is `b`.
pub open spec fn int_sign_weight(b: u8) -> nat {
    if b < 0x80 {
        0x40
    } else if b < 0xC0 {
        0x20
    } else if b < 0xE0 {
        0x10
    } else {
        0x08
    }
}

/// Whether the signed integer at the start of `s` is negative, for `s`
/// holding at least `varint_len(s[0])` bytes.
pub open spec fn varint_negative(s: Seq<u8>) -> bool {
    if s[0] < 0xF0 {
        uint_head_bits(s[0]) >= int_sign_weight(s[0])
    } else {
        s[1] >= 0x80
    }
}

/// The magnitude of the signed integer at the start of `s`.
pub open spec fn varint_magnitude(s: Seq<u8>) -> nat {
    let len = varint_len(s[0]);
    if s[0] < 0xF0 {
        (uint_head_bits(s[0]) % int_sign_weight(s[0])) * pow256((len - 1) as nat) + be_value(
            s.subrange(1, len as int),
        )
    } else {
        (s[1] % 0x80) as nat * pow256((len - 2) as nat) + be_value(s.subrange(2, len as int))
    }
}

/// The value of the signed integer at the start of `s`.
pub open spec fn varint_value(s: Seq<u8>) -> int {
    if varint_negative(s) {
        -varint_magnitude(s)
    } else {
        varint_magnitude(s) as int
    }
}

/// Whether `s` holds a whole variable-length integer.
pub open spec fn varint_complete(s: Seq<u8>) -> bool {
    s.len() > 0 && s.len() >= varint_len(s[0])
}

/// The largest `i64`.
pub open spec fn i64_limit() -> nat {
    0x7FFF_FFFF_FFFF_FFFF
}

pub(crate) proof fn lemma_pow256_pos(n: nat)
    ensures
        pow256(n) >= 1,
    decreases n,
{
    if n > 0 {
        lemma_pow256_pos((n - 1) as nat);
    }
}

proof fn lemma_be_bytes_len(v: nat, n: nat)
    ensures
        be_bytes(v, n).len() == n,
    decreases n,
{
    if n > 0 {
        lemma_be_bytes_len(v / 256, (n - 1) as nat);
    }
}

/// Appends `be_bytes(v, n)` to `w`.
fn push_be(w: &mut Vec<u8>, v: u64, n: usize)
    ensures
        final(w)@ == old(w)@ + be_bytes(v as nat, n as nat),
    decreases n,
{
    if n == 0 {
        assert(old(w)@ + be_bytes(v as nat, 0) =~= old(w)@);
        return;
    }
    push_be(w, v / 256, n - 1);
    w.push((v % 256) as u8);
    assert(final(w)@ =~= old(w)@ + be_bytes(v as nat, n as nat));
}


pub(crate) proof fn lemma_pow256_small()
    ensures
        pow256(1) == 0x100,
        pow256(2) == 0x1_0000,
        pow256(3) == 0x100_0000,
        pow256(7) == 0x100_0000_0000_0000,
        pow256(8) == 0x1_0000_0000_0000_0000,
{
    reveal_with_fuel(pow256, 9);
}

proof fn lemma_pow256_grows(n: nat)
    requires
        n >= 1,
    ensures
        pow256(n) >= 256,
    decreases n,
{
    if n > 1 {
        lemma_pow256_grows((n - 1) as nat);
    } else {
        assert(pow256(0) == 1);
    }
}

/// Reading back `n` bytes gives `v` modulo `256^n`.
proof fn lemma_be_value_be_bytes(v: nat, n: nat)
    ensures
        be_value(be_bytes(v, n)) == v % pow256(n),
    decreases n,
{
    lemma_pow256_pos(n);
    if n == 0 {
        assert(be_bytes(v, n).len() == 0);
    } else {
        let p = pow256((n - 1) as nat);
        lemma_pow256_pos((n - 1) as nat);
        lemma_be_value_be_bytes(v / 256, (n - 1) as nat);
        assert(be_bytes(v, n).drop_last() =~= be_bytes(v / 256, (n - 1) as nat));
        lemma_breakdown(v as int, 256, p as int);
        assert(be_value(be_bytes(v, n)) == ((v / 256) % p) * 256 + v % 256);
    }
}

/// `v` needs at most `k` bytes exactly when it is below `256^k`.
proof fn lemma_byte_len(v: nat, k: nat)
    requires
        k >= 1,
    ensures
        v < pow256(k) <==> byte_len(v) <= k,
    decreases v,
{
    lemma_pow256_grows(k);
    if v >= 256 {
        let p = pow256((k - 1) as nat);
        lemma_pow256_pos((k - 1) as nat);
        assert(v < 256 * p <==> v / 256 < p) by {
            lemma_fundamental_div_mod_converse(v as int, 256, v as int / 256, v as int % 256);
            if v / 256 < p {
                assert(v / 256 * 256 <= (p - 1) * 256) by (nonlinear_arith)
                    requires
                        v / 256 <= p - 1,
                ;
            } else {
                assert(v / 256 * 256 >= p * 256) by (nonlinear_arith)
                    requires
                        v / 256 >= p,
                ;
            }
        }
        if k > 1 {
            lemma_byte_len(v / 256, (k - 1) as nat);
        } else {
            assert(pow256(0) == 1);
            assert(byte_len(v) >= 2) by {
                assert(byte_len(v / 256) >= 1);
            }
        }
    }
}

proof fn lemma_byte_len_pos(v: nat)
    ensures
        byte_len(v) >= 1,
    decreases v,
{
    if v >= 256 {
        lemma_byte_len_pos(v / 256);
    }
}

/// The unsigned encoding reads back, whatever follows it.
pub proof fn lemma_varuint_round_trip(v: nat, rest: Seq<u8>)
    requires
        v <= u64_limit(),
    ensures
        varint_complete(varuint_bytes(v) + rest),
        varint_len((varuint_bytes(v) + rest)[0]) == varuint_bytes(v).len(),
        varuint_value(varuint_bytes(v) + rest) == v,
{
    let e = varuint_bytes(v);
    let s = e + rest;
    lemma_pow256_small();
    if v < 0x80 {
        assert(s[0] == e[0]);
        assert(be_value(s.subrange(1, 1)) == 0);
        let h = uint_head_bits(s[0]);
        let p = pow256(0);
        assert(h * p == v) by (nonlinear_arith)
            requires
                h == v,
                p == 1,
        ;
    } else {
        let k: nat = if v < 0x4000 {
            1
        } else if v < 0x20_0000 {
            2
        } else if v < 0x1000_0000 {
            3
        } else {
            byte_len(v)
        };
        lemma_be_bytes_len(v, k);
        assert(e =~= seq![e[0]] + be_bytes(v, k));
        assert(s.subrange(1, k + 1 as int) =~= be_bytes(v, k));
        lemma_be_value_be_bytes(v, k);
        if v < 0x4000 {
            assert(uint_head_bits(s[0]) * 0x100 + v % 0x100 == v);
        } else if v < 0x20_0000 {
            assert(uint_head_bits(s[0]) * 0x1_0000 + v % 0x1_0000 == v);
        } else if v < 0x1000_0000 {
            assert(uint_head_bits(s[0]) * 0x100_0000 + v % 0x100_0000 == v);
        }
        if v >= 0x1000_0000 {
            lemma_byte_len(v, 3);
            lemma_byte_len(v, 8);
            lemma_byte_len(v, k);
            lemma_pow256_grows(k);
            vstd::arithmetic::div_mod::lemma_small_mod(v, pow256(k));
        }
        assert(varint_len(s[0]) == k + 1);
        assert(be_value(s.subrange(1, k + 1 as int)) == v % pow256(k));
        assert(uint_head_bits(s[0]) * pow256(k) + v % pow256(k) == v);
    }
}

/// Appends the shortest unsigned encoding of `v`.
pub fn serialize_raw_u64(writer: &mut Vec<u8>, v: u64)
    ensures
        final(writer)@ == old(writer)@ + varuint_bytes(v as nat),
{
    if v < 0x80 {
        writer.push(v as u8);
    } else if v < 0x4000 {
        writer.push((0x80 + v / 0x100) as u8);
        push_be(writer, v, 1);
    } else if v < 0x20_0000 {
        writer.push((0xC0 + v / 0x1_0000) as u8);
        push_be(writer, v, 2);
    } else if v < 0x1000_0000 {
        writer.push((0xE0 + v / 0x100_0000) as u8);
        push_be(writer, v, 3);
    } else {
        let n = byte_len_u64(v);
        proof {
            lemma_pow256_small();
            lemma_byte_len(v as nat, 3);
        }
        writer.push((0xF0 + n - 4) as u8);
        push_be(writer, v, n);
    }
    assert(writer@ =~= old(writer)@ + varuint_bytes(v as nat));
}

/// How many bytes `v` needs.
fn byte_len_u64(v: u64) -> (n: usize)
    ensures
        n == byte_len(v as nat),
        1 <= n <= 8,
    decreases v,
{
    proof {
        lemma_pow256_small();
        lemma_byte_len(v as nat, 8);
        lemma_byte_len_pos(v as nat);
    }
    if v < 256 {
        1
    } else {
        1 + byte_len_u64(v / 256)
    }
}

/// The first of the `n` bytes of `v` and the rest.
proof fn lemma_be_bytes_split(v: nat, n: nat)
    requires
        n >= 1,
    ensures
        be_bytes(v, n) =~= seq![((v / pow256((n - 1) as nat)) % 256) as u8] + be_bytes(
            v,
            (n - 1) as nat,
        ),
    decreases n,
{
    if n == 1 {
        assert(pow256(0) == 1);
        assert(be_bytes(v, 0) =~= seq![]);
        assert(be_bytes(v / 256, 0) =~= seq![]);
        assert(v / pow256(0) == v);
        assert(be_bytes(v, 1) =~= seq![(v % 256) as u8]);
    } else {
        lemma_be_bytes_split(v / 256, (n - 1) as nat);
        lemma_pow256_pos((n - 2) as nat);
        lemma_div_denominator(v as int, 256, pow256((n - 2) as nat) as int);
        assert(pow256((n - 1) as nat) == 256 * pow256((n - 2) as nat));
        assert((v / 256) / pow256((n - 2) as nat) == v / pow256((n - 1) as nat));
        assert(be_bytes(v, (n - 1) as nat) =~= be_bytes(v / 256, (n - 2) as nat).push(
            (v % 256) as u8,
        ));
        assert(be_bytes(v, n) =~= be_bytes(v / 256, (n - 1) as nat).push((v % 256) as u8));
    }
}

proof fn lemma_sign_head(neg: bool, w: nat, q: nat)
    requires
        q < w,
    ensures
        (sign_bit(neg, w) + q) % w == q,
        sign_bit(neg, w) + q >= w <==> neg,
{
    if neg {
        lemma_fundamental_div_mod_converse((w + q) as int, w as int, 1, q as int);
    } else {
        lemma_fundamental_div_mod_converse(q as int, w as int, 0, q as int);
    }
}

/// The signed encoding reads back, whatever follows it.
pub proof fn lemma_varint_round_trip(v: int, rest: Seq<u8>)
    requires
        abs(v) <= i64_limit(),
    ensures
        varint_complete(varint_bytes(v) + rest),
        varint_len((varint_bytes(v) + rest)[0]) == varint_bytes(v).len(),
        varint_value(varint_bytes(v) + rest) == v,
{
    let e = varint_bytes(v);
    let s = e + rest;
    let m = abs(v);
    let neg = v < 0;
    lemma_pow256_small();
    if m < 0x40 {
        assert(s[0] == e[0]);
        assert(s.subrange(1, 1).len() == 0);
        assert(be_value(s.subrange(1, 1)) == 0);
        let h = uint_head_bits(s[0]) % int_sign_weight(s[0]);
        let p = pow256(0);
        lemma_sign_head(neg, 0x40, m);
        assert(h == m);
        assert(h * p == m) by (nonlinear_arith)
            requires
                h == m,
                p == 1,
        ;
        assert(varint_magnitude(s) == m);
    } else if m < 0x800_0000 {
        let k: nat = if m < 0x2000 {
            1
        } else if m < 0x10_0000 {
            2
        } else {
            3
        };
        lemma_be_bytes_len(m, k);
        assert(e =~= seq![e[0]] + be_bytes(m, k));
        assert(s[0] == e[0]);
        assert(s.subrange(1, k + 1 as int) =~= be_bytes(m, k));
        lemma_be_value_be_bytes(m, k);
        if m < 0x2000 {
            lemma_sign_head(neg, 0x20, m / 0x100);
            assert(uint_head_bits(s[0]) % int_sign_weight(s[0]) * 0x100 + m % 0x100 == m);
        } else if m < 0x10_0000 {
            lemma_sign_head(neg, 0x10, m / 0x1_0000);
            assert(uint_head_bits(s[0]) % int_sign_weight(s[0]) * 0x1_0000 + m % 0x1_0000 == m);
        } else {
            lemma_sign_head(neg, 0x08, m / 0x100_0000);
            assert(uint_head_bits(s[0]) % int_sign_weight(s[0]) * 0x100_0000 + m % 0x100_0000
                == m);
        }
        assert(varint_magnitude(s) == m);
    } else {
        let n = byte_len(2 * m);
        lemma_byte_len(2 * m, 3);
        lemma_byte_len(2 * m, 8);
        lemma_byte_len(2 * m, n);
        let p = pow256((n - 1) as nat);
        lemma_pow256_pos((n - 1) as nat);
        assert(pow256(n) == 256 * p);
        let x = m + sign_bit(neg, 128 * p);
        assert(m < 128 * p);
        lemma_be_bytes_len(x, n);
        lemma_be_bytes_len(x, (n - 1) as nat);
        lemma_be_bytes_split(x, n);
        assert(e =~= seq![e[0]] + be_bytes(x, n));
        assert(s[0] == e[0]);
        assert(s[1] == be_bytes(x, n)[0]);
        // the first payload byte holds the sign and the top bits of m
        vstd::arithmetic::div_mod::lemma_fundamental_div_mod(m as int, p as int);
        vstd::arithmetic::div_mod::lemma_mod_bound(m as int, p as int);
        let q = m / p;
        assert(q < 128) by {
            if q >= 128 {
                assert(q * p >= 128 * p) by (nonlinear_arith)
                    requires
                        q >= 128,
                        p >= 1,
                ;
            }
        }
        assert(x == (q + sign_bit(neg, 128)) * p + m % p) by (nonlinear_arith)
            requires
                x == m + sign_bit(neg, 128 * p),
                m == p * q + m % p,
                sign_bit(neg, 128 * p) == if neg {
                    128 * p
                } else {
                    0
                },
                sign_bit(neg, 128) == if neg {
                    128int
                } else {
                    0
                },
        ;
        lemma_fundamental_div_mod_converse(
            x as int,
            p as int,
            q + sign_bit(neg, 128) as int,
            m as int % p as int,
        );
        assert(s[1] == q + sign_bit(neg, 128));
        assert(s.subrange(2, n + 1 as int) =~= be_bytes(x, (n - 1) as nat));
        lemma_be_value_be_bytes(x, (n - 1) as nat);
        assert(varint_magnitude(s) == q * p + m % p);
        assert(q * p == p * q) by (nonlinear_arith);
    }
}

/// 256 to the power `n`, for `n <= 7`.
fn pow256_u64(n: usize) -> (r: u64)
    requires
        n <= 7,
    ensures
        r == pow256(n as nat),
    decreases n,
{
    proof {
        lemma_pow256_small();
        lemma_pow256_mono(n as nat, 7);
    }
    if n == 0 {
        1
    } else {
        256 * pow256_u64(n - 1)
    }
}

pub(crate) proof fn lemma_pow256_mono(a: nat, b: nat)
    requires
        a <= b,
    ensures
        pow256(a) <= pow256(b),
    decreases b,
{
    if a < b {
        lemma_pow256_mono(a, (b - 1) as nat);
        lemma_pow256_pos((b - 1) as nat);
    }
}

/// Appends the shortest signed encoding of `v`; the one `i64` that sign and
/// magnitude cannot hold, `i64::MIN`, is refused.
pub fn serialize_raw_i64(writer: &mut Vec<u8>, v: i64) -> (r: Result<(), Error>)
    ensures
        v == i64::MIN ==> r == Err::<(), Error>(Error::UnsupportedType) && final(writer)@ == old(
            writer,
        )@,
        v != i64::MIN ==> r is Ok && final(writer)@ == old(writer)@ + varint_bytes(v as int),
{
    if v == i64::MIN {
        return Err(Error::UnsupportedType);
    }
    let neg = v < 0;
    let m: u64 = if neg {
        (-v) as u64
    } else {
        v as u64
    };
    assert(m == abs(v as int));
    if m < 0x40 {
        writer.push((m + if neg {
            0x40
        } else {
            0
        }) as u8);
    } else if m < 0x2000 {
        writer.push((0x80 + (if neg {
            0x20
        } else {
            0
        }) + m / 0x100) as u8);
        push_be(writer, m, 1);
    } else if m < 0x10_0000 {
        writer.push((0xC0 + (if neg {
            0x10
        } else {
            0
        }) + m / 0x1_0000) as u8);
        push_be(writer, m, 2);
    } else if m < 0x800_0000 {
        writer.push((0xE0 + (if neg {
            0x08
        } else {
            0
        }) + m / 0x100_0000) as u8);
        push_be(writer, m, 3);
    } else {
        let n = byte_len_u64(2 * m);
        proof {
            lemma_pow256_small();
            lemma_byte_len(2 * m as nat, 3);
        }
        writer.push((0xF0 + n - 4) as u8);
        proof {
            lemma_pow256_mono((n - 1) as nat, 7);
        }
        let top: u64 = if neg {
            128 * pow256_u64(n - 1)
        } else {
            0
        };
        push_be(writer, m + top, n);
    }
    assert(writer@ =~= old(writer)@ + varint_bytes(v as int));
    Ok(())
}

/// The unsigned integer at the start of `s` and its length in bytes.
pub open spec fn parse_varuint(s: Seq<u8>) -> Result<(u64, nat), Error> {
    if !varint_complete(s) {
        Err(Error::Eof)
    } else if varuint_value(s) > u64_limit() {
        Err(Error::InvalidType)
    } else {
        Ok((varuint_value(s) as u64, varint_len(s[0])))
    }
}

/// The signed integer at the start of `s` and its length in bytes.
pub open spec fn parse_varint(s: Seq<u8>) -> Result<(i64, nat), Error> {
    if !varint_complete(s) {
        Err(Error::Eof)
    } else if varint_magnitude(s) > i64_limit() {
        Err(Error::InvalidType)
    } else {
        Ok((varint_value(s) as i64, varint_len(s[0])))
    }
}

proof fn lemma_pow256_add(a: nat, b: nat)
    ensures
        pow256(a + b) == pow256(a) * pow256(b),
    decreases a,
{
    if a > 0 {
        lemma_pow256_add((a - 1) as nat, b);
        assert(pow256(a + b) == 256 * pow256((a - 1 + b) as nat));
        let x = pow256((a - 1) as nat);
        let y = pow256(b);
        assert(256 * (x * y) == (256 * x) * y) by (nonlinear_arith);
    } else {
        assert(pow256(0) == 1);
        assert(1 * pow256(b) == pow256(b));
    }
}

proof fn lemma_be_value_concat(a: Seq<u8>, b: Seq<u8>)
    ensures
        be_value(a + b) == be_value(a) * pow256(b.len()) + be_value(b),
    decreases b.len(),
{
    if b.len() == 0 {
        assert(a + b =~= a);
        let p = pow256(0);
        let x = be_value(a);
        assert(x * p == x) by (nonlinear_arith)
            requires
                p == 1,
        ;
        assert(be_value(b) == 0);
    } else {
        lemma_be_value_concat(a, b.drop_last());
        assert((a + b).drop_last() =~= a + b.drop_last());
        assert((a + b).last() == b.last());
        let p = pow256((b.len() - 1) as nat);
        assert(pow256(b.len()) == 256 * p);
        assert((be_value(a) * p + be_value(b.drop_last())) * 256 + b.last() == be_value(a) * (256
            * p) + (be_value(b.drop_last()) * 256 + b.last())) by (nonlinear_arith);
    }
}

proof fn lemma_be_value_bound(s: Seq<u8>)
    ensures
        be_value(s) < pow256(s.len()),
    decreases s.len(),
{
    if s.len() > 0 {
        lemma_be_value_bound(s.drop_last());
        let p = pow256((s.len() - 1) as nat);
        assert(be_value(s.drop_last()) * 256 + 256 <= p * 256) by (nonlinear_arith)
            requires
                be_value(s.drop_last()) + 1 <= p,
        ;
    }
}

/// `head * 256^(end - start)` plus the number that `s[start..end]` spells,
/// or `None` where that exceeds `u64::MAX`.
fn accumulate(s: &[u8], start: usize, end: usize, head: u64) -> (r: Option<u64>)
    requires
        start <= end <= s@.len(),
    ensures
        ({
            let v = head * pow256((end - start) as nat) + be_value(s@.subrange(start as int, end as int));
            &&& v <= u64_limit() ==> r == Some(v as u64)
            &&& v > u64_limit() ==> r is None
        }),
{
    let mut acc: u64 = head;
    let mut i: usize = start;
    assert(s@.subrange(start as int, start as int).len() == 0);
    assert(pow256(0) == 1);
    proof {
        let p = pow256(0);
        let h = head as int;
        assert(h * p == h) by (nonlinear_arith)
            requires
                p == 1,
        ;
    }
    while i < end
        invariant
            start <= i <= end <= s@.len(),
            acc == head * pow256((i - start) as nat) + be_value(s@.subrange(start as int, i as int)),
        decreases end - i,
    {
        let ghost whole = s@.subrange(start as int, end as int);
        let ghost tail = s@.subrange(i as int, end as int);
        proof {
            assert(whole =~= s@.subrange(start as int, i as int) + tail);
            lemma_be_value_concat(s@.subrange(start as int, i as int), tail);
            lemma_pow256_add((i - start) as nat, (end - i) as nat);
            lemma_pow256_grows((end - i) as nat);
        }
        if acc > 0xFF_FFFF_FFFF_FFFF {
            proof {
                let p = pow256((i - start) as nat);
                let q = pow256((end - i) as nat);
                assert(head * (p * q) + be_value(s@.subrange(start as int, i as int)) * q == acc * q)
                    by (nonlinear_arith)
                    requires
                        acc == head * p + be_value(s@.subrange(start as int, i as int)),
                ;
                assert(acc * q >= 0x100_0000_0000_0000 * 256) by (nonlinear_arith)
                    requires
                        acc >= 0x100_0000_0000_0000,
                        q >= 256,
                ;
            }
            return None;
        }
        proof {
            assert(s@.subrange(start as int, i + 1 as int).drop_last() =~= s@.subrange(
                start as int,
                i as int,
            ));
            let p = pow256((i - start) as nat);
            assert(pow256((i + 1 - start) as nat) == 256 * p);
            assert(head * (256 * p) == (head * p) * 256) by (nonlinear_arith);
        }
        acc = acc * 256 + s[i] as u64;
        i = i + 1;
    }
    assert(s@.subrange(start as int, end as int) =~= s@.subrange(start as int, i as int));
    Some(acc)
}

/// Reads the unsigned integer that starts at `pos` in `s`, and its length.
pub fn read_varuint(s: &[u8], pos: usize) -> (r: Result<(u64, usize), Error>)
    requires
        pos <= s@.len(),
    ensures
        match parse_varuint(s@.subrange(pos as int, s@.len() as int)) {
            Ok((v, n)) => r == Ok::<(u64, usize), Error>((v, n as usize)),
            Err(e) => r == Err::<(u64, usize), Error>(e),
        },
        r matches Ok((_, n)) ==> 1 <= n <= s@.len() - pos,
{
    let ghost t = s@.subrange(pos as int, s@.len() as int);
    if pos == s.len() {
        return Err(Error::Eof);
    }
    let b = s[pos];
    let len: usize = if b < 0x80 {
        1
    } else if b < 0xC0 {
        2
    } else if b < 0xE0 {
        3
    } else if b < 0xF0 {
        4
    } else {
        (b - 0xF0) as usize + 5
    };
    if s.len() - pos < len {
        return Err(Error::Eof);
    }
    let head: u64 = if b < 0x80 {
        b as u64
    } else if b < 0xC0 {
        (b - 0x80) as u64
    } else if b < 0xE0 {
        (b - 0xC0) as u64
    } else if b < 0xF0 {
        (b - 0xE0) as u64
    } else {
        0
    };
    assert(t.subrange(1, len as int) =~= s@.subrange(pos + 1, pos + len));
    match accumulate(s, pos + 1, pos + len, head) {
        Some(v) => Ok((v, len)),
        None => Err(Error::InvalidType),
    }
}

/// Reads the signed integer that starts at `pos` in `s`, and its length.
pub fn read_varint(s: &[u8], pos: usize) -> (r: Result<(i64, usize), Error>)
    requires
        pos <= s@.len(),
    ensures
        match parse_varint(s@.subrange(pos as int, s@.len() as int)) {
            Ok((v, n)) => r == Ok::<(i64, usize), Error>((v, n as usize)),
            Err(e) => r == Err::<(i64, usize), Error>(e),
        },
        r matches Ok((_, n)) ==> 1 <= n <= s@.len() - pos,
{
    let ghost t = s@.subrange(pos as int, s@.len() as int);
    if pos == s.len() {
        return Err(Error::Eof);
    }
    let b = s[pos];
    let len: usize = if b < 0x80 {
        1
    } else if b < 0xC0 {
        2
    } else if b < 0xE0 {
        3
    } else if b < 0xF0 {
        4
    } else {
        (b - 0xF0) as usize + 5
    };
    if s.len() - pos < len {
        return Err(Error::Eof);
    }
    let (neg, mag) = if b < 0xF0 {
        let (bits, weight): (u8, u8) = if b < 0x80 {
            (b, 0x40)
        } else if b < 0xC0 {
            (b - 0x80, 0x20)
        } else if b < 0xE0 {
            (b - 0xC0, 0x10)
        } else {
            (b - 0xE0, 0x08)
        };
        assert(t.subrange(1, len as int) =~= s@.subrange(pos + 1, pos + len));
        (bits >= weight, accumulate(s, pos + 1, pos + len, (bits % weight) as u64))
    } else {
        let p0 = s[pos + 1];
        assert(t.subrange(2, len as int) =~= s@.subrange(pos + 2, pos + len));
        (p0 >= 0x80, accumulate(s, pos + 2, pos + len, (p0 % 0x80) as u64))
    };
    match mag {
        Some(m) => {
            if m > 0x7FFF_FFFF_FFFF_FFFF {
                Err(Error::InvalidType)
            } else if neg {
                Ok((-(m as i64), len))
            } else {
                Ok((m as i64, len))
            }
        },
        None => Err(Error::InvalidType),
    }
}

/// An unsigned integer reads back from its encoding, whatever follows it.
pub proof fn lemma_parse_varuint_round_trip(v: u64, rest: Seq<u8>)
    ensures
        parse_varuint(varuint_bytes(v as nat) + rest) == Ok::<(u64, nat), Error>(
            (v, varuint_bytes(v as nat).len()),
        ),
{
    lemma_varuint_round_trip(v as nat, rest);
}

/// A signed integer other than `i64::MIN` reads back from its encoding,
/// whatever follows it.
pub proof fn lemma_parse_varint_round_trip(v: i64, rest: Seq<u8>)
    requires
        v != i64::MIN,
    ensures
        parse_varint(varint_bytes(v as int) + rest) == Ok::<(i64, nat), Error>(
            (v, varint_bytes(v as int).len()),
        ),
{
    lemma_varint_round_trip(v as int, rest);
}

/// 2 to the power `n`.
pub open spec fn pow2(n: nat) -> nat
    decreases n,
{
    if n == 0 {
        1
    } else {
        2 * pow2((n - 1) as nat)
    }
}

/// How many bits `u` takes: the position of its highest one bit.
pub open spec fn bit_len(u: nat) -> nat
    decreases u,
{
    if u == 0 {
        0
    } else {
        1 + bit_len(u / 2)
    }
}

/// The length of the unsigned encoding of a number of `k` bits: the
/// smallest of one to four bytes whose 7, 14, 21 or 28 value bits hold
/// them, else a length byte and `ceil(k / 8)` bytes.
pub open spec fn varuint_len_for_bits(k: nat) -> nat {
    if k <= 7 {
        1
    } else if k <= 14 {
        2
    } else if k <= 21 {
        3
    } else if k <= 28 {
        4
    } else {
        (k + 7) / 8 + 1
    }
}

proof fn lemma_pow2_pos(k: nat)
    ensures
        pow2(k) >= 1,
    decreases k,
{
    if k > 0 {
        lemma_pow2_pos((k - 1) as nat);
    }
}

proof fn lemma_bit_len(u: nat, k: nat)
    ensures
        u < pow2(k) <==> bit_len(u) <= k,
    decreases u,
{
    lemma_pow2_pos(k);
    if u > 0 {
        if k > 0 {
            lemma_bit_len(u / 2, (k - 1) as nat);
        } else {
            assert(pow2(0) == 1);
        }
    }
}

proof fn lemma_pow256_pow2(j: nat)
    ensures
        pow256(j) == pow2(8 * j),
    decreases j,
{
    if j > 0 {
        lemma_pow256_pow2((j - 1) as nat);
        reveal_with_fuel(pow2, 9);
        assert(pow2(8 * j) == 256 * pow2((8 * j - 8) as nat));
    }
}

/// The length of the unsigned encoding follows from the bit length alone.
pub proof fn lemma_varuint_len(u: nat)
    requires
        0 < u <= u64_limit(),
    ensures
        varuint_bytes(u).len() == varuint_len_for_bits(bit_len(u)),
{
    reveal_with_fuel(pow2, 29);
    lemma_bit_len(u, 7);
    lemma_bit_len(u, 14);
    lemma_bit_len(u, 21);
    lemma_bit_len(u, 28);
    if u >= 0x1000_0000 {
        let k = bit_len(u);
        let n = byte_len(u);
        lemma_pow256_small();
        lemma_byte_len(u, 3);
        lemma_byte_len(u, 8);
        lemma_byte_len(u, n);
        lemma_be_bytes_len(u, n);
        // n is the least number of bytes whose bits hold k
        lemma_pow256_pow2(n);
        lemma_bit_len(u, 8 * n);
        lemma_pow256_pow2((n - 1) as nat);
        lemma_byte_len(u, (n - 1) as nat);
        lemma_bit_len(u, (8 * (n - 1)) as nat);
        assert(8 * (n - 1) < k <= 8 * n);
        assert((k + 7) / 8 == n);
    } else {
        if u >= 0x80 {
            lemma_be_bytes_len(u, if u < 0x4000 {
                1
            } else if u < 0x20_0000 {
                2
            } else {
                3
            });
        }
    }
}

/// No encoding that reads as `v` is shorter than the one the encoder
/// writes.
pub proof fn lemma_varuint_shortest(s: Seq<u8>)
    requires
        parse_varuint(s) is Ok,
    ensures
        varuint_bytes(parse_varuint(s)->Ok_0.0 as nat).len() <= parse_varuint(s)->Ok_0.1,
{
    let len = varint_len(s[0]);
    let v = varuint_value(s);
    let tail = s.subrange(1, len as int);
    lemma_be_value_bound(tail);
    lemma_pow256_small();
    lemma_be_bytes_len(v, 1);
    lemma_be_bytes_len(v, 2);
    lemma_be_bytes_len(v, 3);
    if len == 1 {
        assert(be_value(tail) == 0);
        let p = pow256(0);
        let h = uint_head_bits(s[0]);
        assert(h * p == h) by (nonlinear_arith)
            requires
                p == 1,
        ;
    } else if len <= 4 {
        let h = uint_head_bits(s[0]);
        let p = pow256((len - 1) as nat);
        let bound: nat = if len == 2 {
            0x40
        } else if len == 3 {
            0x20
        } else {
            0x10
        };
        assert(h * p + be_value(tail) < bound * p) by (nonlinear_arith)
            requires
                h < bound,
                be_value(tail) < p,
        ;
    } else {
        assert(uint_head_bits(s[0]) == 0);
        let p = pow256((len - 1) as nat);
        assert(0 * p == 0);
        if v >= 0x1000_0000 {
            lemma_byte_len(v, (len - 1) as nat);
            lemma_be_bytes_len(v, byte_len(v));
        }
    }
}

/// No encoding that reads as `v` is shorter than the one the encoder
/// writes.
pub proof fn lemma_varint_shortest(s: Seq<u8>)
    requires
        parse_varint(s) is Ok,
    ensures
        varint_bytes(parse_varint(s)->Ok_0.0 as int).len() <= parse_varint(s)->Ok_0.1,
{
    let len = varint_len(s[0]);
    let m = varint_magnitude(s);
    let v = varint_value(s);
    assert(abs(v) == m);
    lemma_pow256_small();
    lemma_be_bytes_len(m, 1);
    lemma_be_bytes_len(m, 2);
    lemma_be_bytes_len(m, 3);
    if s[0] < 0xF0 {
        let tail = s.subrange(1, len as int);
        lemma_be_value_bound(tail);
        if len == 1 {
            assert(be_value(tail) == 0);
            let p = pow256(0);
            let h = uint_head_bits(s[0]) % int_sign_weight(s[0]);
            assert(h * p == h) by (nonlinear_arith)
                requires
                    p == 1,
            ;
            assert(m < 0x40);
        } else {
            let h = uint_head_bits(s[0]) % int_sign_weight(s[0]);
            let p = pow256((len - 1) as nat);
            let w = int_sign_weight(s[0]);
            assert(h * p + be_value(tail) < w * p) by (nonlinear_arith)
                requires
                    h < w,
                    be_value(tail) < p,
            ;
            if len == 2 {
                assert(w * p == 0x2000) by (nonlinear_arith)
                    requires
                        w == 0x20,
                        p == 0x100,
                ;
            } else if len == 3 {
                assert(w * p == 0x10_0000) by (nonlinear_arith)
                    requires
                        w == 0x10,
                        p == 0x1_0000,
                ;
            } else {
                assert(w * p == 0x800_0000) by (nonlinear_arith)
                    requires
                        w == 0x08,
                        p == 0x100_0000,
                ;
            }
        }
        assert(varint_bytes(v).len() <= len);
    } else {
        let tail = s.subrange(2, len as int);
        lemma_be_value_bound(tail);
        let p = pow256((len - 2) as nat);
        let h = (s[1] % 0x80) as nat;
        assert(h * p + be_value(tail) < 128 * p) by (nonlinear_arith)
            requires
                h <= 127,
                be_value(tail) < p,
        ;
        assert(pow256((len - 1) as nat) == 256 * p);
        if m >= 0x800_0000 {
            lemma_byte_len(2 * m, (len - 1) as nat);
            lemma_be_bytes_len(
                m + sign_bit(v < 0, 128 * pow256((byte_len(2 * m) - 1) as nat)),
                byte_len(2 * m),
            );
        }
        assert(varint_bytes(v).len() <= len);
    }
}

} // verus!
