//! The stream of tokens that a value is made of, and the bytes of each.
//!
//! A scalar is one token. A list, map or integer-keyed map is its opening
//! token, then its elements (for maps: key, value, key, value, ...), then
//! `End`.

use vstd::prelude::*;
use vstd::utf8::{encode_utf8, decode_utf8, valid_utf8};
use crate::error::Error;
use crate::types::{
    CP_BLOB, CP_DATETIME, CP_DECIMAL, CP_DOUBLE, CP_FALSE, CP_IMAP, CP_INT, CP_LIST, CP_MAP,
    CP_NULL, CP_STRING, CP_TERM, CP_TRUE, CP_UINT, INLINE_END, INLINE_INT_BASE,
};
use crate::varint::{
    lemma_parse_varint_round_trip, lemma_parse_varuint_round_trip, lemma_pow256_pos,
    lemma_pow256_small, parse_varint, parse_varuint, pow256, varint_bytes, varuint_bytes,
};
use crate::decimal::CPDecimal;
use crate::datetime::{
    datetime_encodable, datetime_in_range, datetime_payload, lemma_datetime_round_trip,
    lemma_payload_bounds, payload_msec, payload_offset, CPDateTime,
};

verus! {

/// One token of a value.
#[derive(Debug, Clone, PartialEq)]
pub enum Token {
    Null,
    Bool(bool),
    UInt(u64),
    Int(i64),
    /// The bits of an IEEE-754 binary64 number.
    Double(u64),
    Decimal(CPDecimal),
    DateTime(CPDateTime),
    Blob(Vec<u8>),
    String(String),
    /// Opens a list.
    List,
    /// Opens a map with string keys.
    StrMap,
    /// Opens a map with integer keys.
    IMap,
    /// Closes the innermost open container.
    End,
}

/// What a token holds.
pub ghost enum TokenView {
    Null,
    Bool(bool),
    UInt(u64),
    Int(i64),
    Double(u64),
    Decimal(CPDecimal),
    DateTime(CPDateTime),
    Blob(Seq<u8>),
    String(Seq<char>),
    List,
    StrMap,
    IMap,
    End,
}

impl View for Token {
    type V = TokenView;

    open spec fn view(&self) -> TokenView {
        match self {
            Token::Null => TokenView::Null,
            Token::Bool(b) => TokenView::Bool(*b),
            Token::UInt(v) => TokenView::UInt(*v),
            Token::Int(v) => TokenView::Int(*v),
            Token::Double(v) => TokenView::Double(*v),
            Token::Decimal(d) => TokenView::Decimal(*d),
            Token::DateTime(d) => TokenView::DateTime(*d),
            Token::Blob(b) => TokenView::Blob(b@),
            Token::String(s) => TokenView::String(s@),
            Token::List => TokenView::List,
            Token::StrMap => TokenView::StrMap,
            Token::IMap => TokenView::IMap,
            Token::End => TokenView::End,
        }
    }
}

/// The `n` bytes that hold `v` modulo `256^n`, least significant first.
pub open spec fn le_bytes(v: nat, n: nat) -> Seq<u8>
    decreases n,
{
    if n == 0 {
        seq![]
    } else {
        seq![(v % 256) as u8] + le_bytes(v / 256, (n - 1) as nat)
    }
}

/// The number that the bytes `s` spell, least significant first.
pub open spec fn le_value(s: Seq<u8>) -> nat
    decreases s.len(),
{
    if s.len() == 0 {
        0
    } else {
        (s[0] + 256 * le_value(s.drop_first())) as nat
    }
}

/// The bytes of an unsigned integer value: inline below 64.
pub open spec fn uint_bytes(v: u64) -> Seq<u8> {
    if v < 64 {
        seq![v as u8]
    } else {
        seq![CP_UINT] + varuint_bytes(v as nat)
    }
}

/// The bytes of a signed integer value: inline from 0 to 63.
pub open spec fn int_bytes(v: i64) -> Seq<u8> {
    if 0 <= v < 64 {
        seq![(INLINE_INT_BASE + v) as u8]
    } else {
        seq![CP_INT] + varint_bytes(v as int)
    }
}

/// Whether the wire format can carry `t`.
pub open spec fn token_encodable(t: TokenView) -> bool {
    match t {
        TokenView::Int(v) => v != i64::MIN,
        TokenView::Decimal(d) => d.mantissa != i64::MIN,
        TokenView::DateTime(dt) => datetime_encodable(dt),
        TokenView::Blob(b) => b.len() <= u64::MAX,
        TokenView::String(s) => encode_utf8(s).len() <= u64::MAX,
        _ => true,
    }
}

/// The error with which a token that the format cannot carry is refused.
pub open spec fn token_error(t: TokenView) -> Error {
    match t {
        TokenView::DateTime(_) => Error::InvalidDateTime,
        _ => Error::UnsupportedType,
    }
}

/// The bytes of the token `t`.
pub open spec fn token_bytes(t: TokenView) -> Seq<u8> {
    match t {
        TokenView::Null => seq![CP_NULL],
        TokenView::Bool(b) => seq![
            if b {
                CP_TRUE
            } else {
                CP_FALSE
            },
        ],
        TokenView::UInt(v) => uint_bytes(v),
        TokenView::Int(v) => int_bytes(v),
        TokenView::Double(bits) => seq![CP_DOUBLE] + le_bytes(bits as nat, 8),
        TokenView::Decimal(d) => seq![CP_DECIMAL] + varint_bytes(d.mantissa as int) + varint_bytes(
            d.exponent as int,
        ),
        TokenView::DateTime(dt) => seq![CP_DATETIME] + varint_bytes(datetime_payload(dt)),
        TokenView::Blob(b) => seq![CP_BLOB] + varuint_bytes(b.len()) + b,
        TokenView::String(s) => seq![CP_STRING] + varuint_bytes(encode_utf8(s).len()) + encode_utf8(
            s,
        ),
        TokenView::List => seq![CP_LIST],
        TokenView::StrMap => seq![CP_MAP],
        TokenView::IMap => seq![CP_IMAP],
        TokenView::End => seq![CP_TERM],
    }
}

/// The payload of a blob or string: a length, then that many bytes.
pub open spec fn parse_chunk(s: Seq<u8>) -> Result<(Seq<u8>, nat), Error> {
    match parse_varuint(s) {
        Ok((len, n)) => if s.len() - n < len {
            Err(Error::Eof)
        } else {
            Ok((s.subrange(n as int, n + len), (n + len) as nat))
        },
        Err(e) => Err(e),
    }
}

/// The decimal after its tag: mantissa, then an exponent that must fit in
/// an `i8`.
pub open spec fn parse_decimal(s: Seq<u8>) -> Result<(CPDecimal, nat), Error> {
    match parse_varint(s) {
        Ok((m, n1)) => match parse_varint(s.skip(n1 as int)) {
            Ok((e, n2)) => if -128 <= e <= 127 {
                Ok((CPDecimal { mantissa: m, exponent: e as i8 }, n1 + n2))
            } else {
                Err(Error::InvalidType)
            },
            Err(err) => Err(err),
        },
        Err(err) => Err(err),
    }
}

/// The timestamp after its tag.
pub open spec fn parse_datetime(s: Seq<u8>) -> Result<(CPDateTime, nat), Error> {
    match parse_varint(s) {
        Ok((v, n)) => if datetime_in_range(payload_msec(v as int), payload_offset(v as int)) {
            Ok(
                (
                    CPDateTime {
                        msec: payload_msec(v as int) as i64,
                        utc_offset: payload_offset(v as int) as i32,
                    },
                    n,
                ),
            )
        } else {
            Err(Error::InvalidDateTime)
        },
        Err(e) => Err(e),
    }
}

/// The value token at the start of `s`, and how many bytes it takes. A
/// terminator is not a value, and is refused here.
#[verifier::opaque]
pub open spec fn parse_token(s: Seq<u8>) -> Result<(TokenView, nat), Error> {
    if s.len() == 0 {
        Err(Error::Eof)
    } else {
        let tag = s[0];
        let r = s.drop_first();
        if tag < INLINE_INT_BASE {
            Ok((TokenView::UInt(tag as u64), 1))
        } else if tag < INLINE_END {
            Ok((TokenView::Int((tag - INLINE_INT_BASE) as i64), 1))
        } else if tag == CP_NULL {
            Ok((TokenView::Null, 1))
        } else if tag == CP_TRUE {
            Ok((TokenView::Bool(true), 1))
        } else if tag == CP_FALSE {
            Ok((TokenView::Bool(false), 1))
        } else if tag == CP_LIST {
            Ok((TokenView::List, 1))
        } else if tag == CP_MAP {
            Ok((TokenView::StrMap, 1))
        } else if tag == CP_IMAP {
            Ok((TokenView::IMap, 1))
        } else if tag == CP_UINT {
            match parse_varuint(r) {
                Ok((v, n)) => Ok((TokenView::UInt(v), n + 1)),
                Err(e) => Err(e),
            }
        } else if tag == CP_INT {
            match parse_varint(r) {
                Ok((v, n)) => Ok((TokenView::Int(v), n + 1)),
                Err(e) => Err(e),
            }
        } else if tag == CP_DOUBLE {
            if r.len() < 8 {
                Err(Error::Eof)
            } else {
                Ok((TokenView::Double(le_value(r.take(8)) as u64), 9))
            }
        } else if tag == CP_DECIMAL {
            match parse_decimal(r) {
                Ok((d, n)) => Ok((TokenView::Decimal(d), n + 1)),
                Err(e) => Err(e),
            }
        } else if tag == CP_DATETIME {
            match parse_datetime(r) {
                Ok((dt, n)) => Ok((TokenView::DateTime(dt), n + 1)),
                Err(e) => Err(e),
            }
        } else if tag == CP_BLOB {
            match parse_chunk(r) {
                Ok((b, n)) => Ok((TokenView::Blob(b), n + 1)),
                Err(e) => Err(e),
            }
        } else if tag == CP_STRING {
            match parse_chunk(r) {
                Ok((b, n)) => if valid_utf8(b) {
                    Ok((TokenView::String(decode_utf8(b)), n + 1))
                } else {
                    Err(Error::InvalidUtf8)
                },
                Err(e) => Err(e),
            }
        } else {
            Err(Error::InvalidType)
        }
    }
}

/// Whether, inside a container, another element follows at the start of
/// `s` (`Ok(false)`: the terminator, which takes one byte).
pub open spec fn parse_more(s: Seq<u8>) -> Result<bool, Error> {
    if s.len() == 0 {
        Err(Error::Eof)
    } else {
        Ok(s[0] != CP_TERM)
    }
}

pub(crate) proof fn lemma_le_value_le_bytes(v: nat, n: nat)
    ensures
        le_value(le_bytes(v, n)) == v % pow256(n),
        le_bytes(v, n).len() == n,
    decreases n,
{
    lemma_pow256_pos(n);
    if n == 0 {
        assert(le_bytes(v, n).len() == 0);
    } else {
        let p = pow256((n - 1) as nat);
        lemma_pow256_pos((n - 1) as nat);
        lemma_le_value_le_bytes(v / 256, (n - 1) as nat);
        assert(le_bytes(v, n).drop_first() =~= le_bytes(v / 256, (n - 1) as nat));
        vstd::arithmetic::div_mod::lemma_breakdown(v as int, 256, p as int);
    }
}

/// Whether the timestamp in `t`, if any, has an offset of whole quarter
/// hours, the only ones that survive the wire unchanged.
pub open spec fn offset_kept(t: TokenView) -> bool {
    match t {
        TokenView::DateTime(dt) => dt.utc_offset % 900 == 0,
        _ => true,
    }
}

proof fn lemma_decimal_round_trip(d: CPDecimal, rest: Seq<u8>)
    requires
        d.mantissa != i64::MIN,
    ensures
        parse_token(token_bytes(TokenView::Decimal(d)) + rest) == Ok::<(TokenView, nat), Error>(
            (TokenView::Decimal(d), token_bytes(TokenView::Decimal(d)).len()),
        ),
{
    reveal(parse_token);
    let e = token_bytes(TokenView::Decimal(d));
    let s = e + rest;
    assert(s[0] == e[0]);
    let r = s.drop_first();
    let me = varint_bytes(d.mantissa as int);
    let ee = varint_bytes(d.exponent as int);
    assert(r =~= me + (ee + rest));
    lemma_parse_varint_round_trip(d.mantissa, ee + rest);
    assert(r.skip(me.len() as int) =~= ee + rest);
    lemma_parse_varint_round_trip(d.exponent as i64, rest);
    assert(parse_decimal(r) == Ok::<(CPDecimal, nat), Error>((d, (me.len() + ee.len()) as nat)));
}

proof fn lemma_datetime_token_round_trip(dt: CPDateTime, rest: Seq<u8>)
    requires
        datetime_encodable(dt),
        dt.utc_offset % 900 == 0,
    ensures
        parse_token(token_bytes(TokenView::DateTime(dt)) + rest) == Ok::<(TokenView, nat), Error>(
            (TokenView::DateTime(dt), token_bytes(TokenView::DateTime(dt)).len()),
        ),
{
    reveal(parse_token);
    let e = token_bytes(TokenView::DateTime(dt));
    let s = e + rest;
    assert(s[0] == e[0]);
    let r = s.drop_first();
    lemma_payload_bounds(dt);
    lemma_datetime_round_trip(dt);
    let p = datetime_payload(dt) as i64;
    assert(r =~= varint_bytes(p as int) + rest);
    lemma_parse_varint_round_trip(p, rest);
    assert(parse_datetime(r) == Ok::<(CPDateTime, nat), Error>(
        (dt, varint_bytes(p as int).len()),
    ));
}

proof fn lemma_chunk_round_trip(b: Seq<u8>, rest: Seq<u8>)
    requires
        b.len() <= u64::MAX,
    ensures
        parse_chunk(varuint_bytes(b.len()) + b + rest) == Ok::<(Seq<u8>, nat), Error>(
            (b, varuint_bytes(b.len()).len() + b.len()),
        ),
{
    let r = varuint_bytes(b.len()) + b + rest;
    let le = varuint_bytes(b.len());
    assert(r =~= le + (b + rest));
    lemma_parse_varuint_round_trip(b.len() as u64, b + rest);
    assert(r.subrange(le.len() as int, le.len() + b.len() as int) =~= b);
}

proof fn lemma_string_round_trip(text: Seq<char>, rest: Seq<u8>)
    requires
        encode_utf8(text).len() <= u64::MAX,
    ensures
        parse_token(token_bytes(TokenView::String(text)) + rest) == Ok::<(TokenView, nat), Error>(
            (TokenView::String(text), token_bytes(TokenView::String(text)).len()),
        ),
{
    reveal(parse_token);
    broadcast use vstd::utf8::encode_utf8_valid_utf8, vstd::utf8::encode_utf8_decode_utf8;

    let e = token_bytes(TokenView::String(text));
    let s = e + rest;
    assert(s[0] == e[0]);
    let b = encode_utf8(text);
    assert(s.drop_first() =~= varuint_bytes(b.len()) + b + rest);
    lemma_chunk_round_trip(b, rest);
}

/// Every value token that the format can carry reads back from its bytes,
/// whatever follows them; for a timestamp, where its offset is a whole
/// number of quarter hours.
pub proof fn lemma_token_round_trip(t: TokenView, rest: Seq<u8>)
    requires
        token_encodable(t),
        offset_kept(t),
        t != TokenView::End,
    ensures
        parse_token(token_bytes(t) + rest) == Ok::<(TokenView, nat), Error>(
            (t, token_bytes(t).len()),
        ),
{
    reveal(parse_token);
    let e = token_bytes(t);
    let s = e + rest;
    assert(s[0] == e[0]);
    match t {
        TokenView::UInt(v) => {
            if v >= 64 {
                assert(s.drop_first() =~= varuint_bytes(v as nat) + rest);
                lemma_parse_varuint_round_trip(v, rest);
            }
        },
        TokenView::Int(v) => {
            if !(0 <= v < 64) {
                assert(s.drop_first() =~= varint_bytes(v as int) + rest);
                lemma_parse_varint_round_trip(v, rest);
            }
        },
        TokenView::Double(bits) => {
            lemma_le_value_le_bytes(bits as nat, 8);
            lemma_pow256_small();
            assert(s.drop_first().take(8) =~= le_bytes(bits as nat, 8));
            vstd::arithmetic::div_mod::lemma_small_mod(bits as nat, pow256(8));
        },
        TokenView::Decimal(d) => {
            lemma_decimal_round_trip(d, rest);
        },
        TokenView::DateTime(dt) => {
            lemma_datetime_token_round_trip(dt, rest);
        },
        TokenView::Blob(b) => {
            assert(s.drop_first() =~= varuint_bytes(b.len()) + b + rest);
            lemma_chunk_round_trip(b, rest);
        },
        TokenView::String(text) => {
            lemma_string_round_trip(text, rest);
        },
        _ => {},
    }
}

/// Inside a container, the bytes of a value token announce another
/// element, and those of `End` close the container.
pub proof fn lemma_more_round_trip(t: TokenView, rest: Seq<u8>)
    ensures
        parse_more(token_bytes(t) + rest) == Ok::<bool, Error>(t != TokenView::End),
{
    let e = token_bytes(t);
    assert((e + rest)[0] == e[0]);
}

/// What each token of `ts` holds.
pub open spec fn token_views(ts: Seq<Token>) -> Seq<TokenView> {
    ts.map_values(|t: Token| t@)
}

/// Whether `t` opens a container.
pub open spec fn opens(t: TokenView) -> bool {
    t == TokenView::List || t == TokenView::StrMap || t == TokenView::IMap
}

/// The bytes of a sequence of tokens, one after another.
pub open spec fn tokens_bytes(ts: Seq<TokenView>) -> Seq<u8>
    decreases ts.len(),
{
    if ts.len() == 0 {
        seq![]
    } else {
        token_bytes(ts[0]) + tokens_bytes(ts.drop_first())
    }
}

/// Where a reader stands inside an open container: in a list, before a
/// key, or before the value that goes with a key (`true`: a map with
/// integer keys).
#[derive(Debug, Clone, Copy, PartialEq, Eq, Structural)]
pub enum Frame {
    List,
    Key(bool),
    Value(bool),
}

/// The frame that the container token `t` opens.
pub open spec fn frame_of(t: TokenView) -> Frame {
    match t {
        TokenView::IMap => Frame::Key(true),
        TokenView::StrMap => Frame::Key(false),
        _ => Frame::List,
    }
}

/// Whether `t` may stand where `stack` says that the next element goes:
/// a map's keys are strings, those of a map with integer keys are signed
/// integers.
pub open spec fn allowed(stack: Seq<Frame>, t: TokenView) -> bool {
    match stack.last() {
        Frame::Key(int_keys) => if int_keys {
            t is Int
        } else {
            t is String
        },
        _ => true,
    }
}

/// Whether the innermost container may close: not between a key and its
/// value.
pub open spec fn may_close(stack: Seq<Frame>) -> bool {
    !(stack.last() is Value)
}

/// The frames after the element token `t`.
pub open spec fn step(stack: Seq<Frame>, t: TokenView) -> Seq<Frame> {
    let base = match stack.last() {
        Frame::List => stack,
        Frame::Key(b) => stack.drop_last().push(Frame::Value(b)),
        Frame::Value(b) => stack.drop_last().push(Frame::Key(b)),
    };
    if opens(t) {
        base.push(frame_of(t))
    } else {
        base
    }
}

/// Whether the tokens `ts` close exactly the containers open in `stack`,
/// the outermost at their end, with a key and a value for each map entry.
pub open spec fn completes(ts: Seq<TokenView>, stack: Seq<Frame>) -> bool
    decreases ts.len(),
{
    if stack.len() == 0 {
        ts.len() == 0
    } else if ts.len() == 0 {
        false
    } else if ts[0] == TokenView::End {
        may_close(stack) && completes(ts.drop_first(), stack.drop_last())
    } else {
        allowed(stack, ts[0]) && completes(ts.drop_first(), step(stack, ts[0]))
    }
}

/// The frames open after the first token `t` of a value.
pub open spec fn first_frames(t: TokenView) -> Seq<Frame> {
    if opens(t) {
        seq![frame_of(t)]
    } else {
        seq![]
    }
}

/// Whether `ts` is the token stream of exactly one value: a scalar, or a
/// container with its elements and its terminator.
pub open spec fn is_value(ts: Seq<TokenView>) -> bool {
    ts.len() > 0 && ts[0] != TokenView::End && completes(ts.drop_first(), first_frames(ts[0]))
}

/// Reading from `s` the tokens that close the containers open in `stack`,
/// and how many bytes they take.
pub open spec fn parse_rest_of(s: Seq<u8>, stack: Seq<Frame>) -> Result<(Seq<TokenView>, nat), Error>
    decreases s.len(),
{
    if stack.len() == 0 {
        Ok((seq![], 0))
    } else {
        match parse_more(s) {
            Err(e) => Err(e),
            Ok(more) => if !more {
                if !may_close(stack) {
                    Err(Error::InvalidType)
                } else {
                    match parse_rest_of(s.drop_first(), stack.drop_last()) {
                        Ok((ts, n)) => Ok((seq![TokenView::End] + ts, n + 1)),
                        Err(e) => Err(e),
                    }
                }
            } else {
                match parse_token(s) {
                    Ok((t, n)) => if 0 < n <= s.len() {
                        if !allowed(stack, t) {
                            Err(Error::InvalidType)
                        } else {
                            match parse_rest_of(s.skip(n as int), step(stack, t)) {
                                Ok((ts, m)) => Ok((seq![t] + ts, n + m)),
                                Err(e) => Err(e),
                            }
                        }
                    } else {
                        Err(Error::Eof)
                    },
                    Err(e) => Err(e),
                }
            },
        }
    }
}

/// Reading one whole value from the start of `s`: its tokens, and how many
/// bytes they take.
pub open spec fn parse_value(s: Seq<u8>) -> Result<(Seq<TokenView>, nat), Error> {
    match parse_token(s) {
        Ok((t, n)) => match parse_rest_of(s.skip(n as int), first_frames(t)) {
            Ok((ts, m)) => Ok((seq![t] + ts, n + m)),
            Err(e) => Err(e),
        },
        Err(e) => Err(e),
    }
}

/// A token that reads takes at least one byte and no more than there are.
pub proof fn lemma_parse_token_len(s: Seq<u8>)
    ensures
        parse_token(s) matches Ok((_, n)) ==> 1 <= n <= s.len(),
{
    reveal(parse_token);
}

proof fn lemma_tokens_bytes_first(t: TokenView, ts: Seq<TokenView>)
    ensures
        tokens_bytes(seq![t] + ts) == token_bytes(t) + tokens_bytes(ts),
{
    assert((seq![t] + ts).drop_first() =~= ts);
}

pub proof fn lemma_tokens_bytes_push(ts: Seq<TokenView>, t: TokenView)
    ensures
        tokens_bytes(ts.push(t)) == tokens_bytes(ts) + token_bytes(t),
    decreases ts.len(),
{
    if ts.len() == 0 {
        assert(ts.push(t).drop_first() =~= ts);
        assert(ts.push(t)[0] == t);
        assert(tokens_bytes(ts) =~= seq![]);
        assert(tokens_bytes(ts.push(t)) =~= token_bytes(t));
        assert(tokens_bytes(ts) + token_bytes(t) =~= token_bytes(t));
    } else {
        lemma_tokens_bytes_push(ts.drop_first(), t);
        assert(ts.push(t).drop_first() =~= ts.drop_first().push(t));
        assert(tokens_bytes(ts.push(t)) =~= tokens_bytes(ts) + token_bytes(t));
    }
}

/// Whether the format carries every token of `ts` unchanged.
pub open spec fn all_carried(ts: Seq<TokenView>) -> bool {
    forall|i: int| 0 <= i < ts.len() ==> token_encodable(#[trigger] ts[i]) && offset_kept(ts[i])
}

proof fn lemma_rest_round_trip(ts: Seq<TokenView>, stack: Seq<Frame>, rest: Seq<u8>)
    requires
        completes(ts, stack),
        all_carried(ts),
    ensures
        parse_rest_of(tokens_bytes(ts) + rest, stack) == Ok::<(Seq<TokenView>, nat), Error>(
            (ts, tokens_bytes(ts).len()),
        ),
    decreases ts.len(),
{
    let s = tokens_bytes(ts) + rest;
    if stack.len() == 0 {
        assert(ts =~= seq![]);
        assert(tokens_bytes(ts) =~= seq![]);
    } else {
        let t = ts[0];
        let tail = ts.drop_first();
        assert(ts =~= seq![t] + tail);
        lemma_tokens_bytes_first(t, tail);
        assert(s =~= token_bytes(t) + (tokens_bytes(tail) + rest));
        lemma_more_round_trip(t, tokens_bytes(tail) + rest);
        assert(all_carried(tail)) by {
            assert forall|i: int| 0 <= i < tail.len() implies token_encodable(#[trigger] tail[i])
                && offset_kept(tail[i]) by {
                assert(tail[i] == ts[i + 1]);
            }
        }
        assert(token_encodable(ts[0]) && offset_kept(ts[0]));
        if t == TokenView::End {
            assert(s.drop_first() =~= tokens_bytes(tail) + rest);
            lemma_rest_round_trip(tail, stack.drop_last(), rest);
            assert(token_bytes(t).len() == 1);
        } else {
            lemma_token_round_trip(t, tokens_bytes(tail) + rest);
            lemma_parse_token_len(s);
            let n = token_bytes(t).len();
            assert(s.skip(n as int) =~= tokens_bytes(tail) + rest);
            lemma_rest_round_trip(tail, step(stack, t), rest);
        }
    }
}

/// A whole value reads back from its bytes, whatever follows them: every
/// token comes back, as long as the format carries each unchanged.
pub proof fn lemma_value_round_trip(ts: Seq<TokenView>, rest: Seq<u8>)
    requires
        is_value(ts),
        all_carried(ts),
    ensures
        parse_value(tokens_bytes(ts) + rest) == Ok::<(Seq<TokenView>, nat), Error>(
            (ts, tokens_bytes(ts).len()),
        ),
{
    let t = ts[0];
    let tail = ts.drop_first();
    assert(ts =~= seq![t] + tail);
    lemma_tokens_bytes_first(t, tail);
    let s = tokens_bytes(ts) + rest;
    assert(s =~= token_bytes(t) + (tokens_bytes(tail) + rest));
    assert(token_encodable(ts[0]) && offset_kept(ts[0]));
    assert(all_carried(tail)) by {
        assert forall|i: int| 0 <= i < tail.len() implies token_encodable(#[trigger] tail[i])
            && offset_kept(tail[i]) by {
            assert(tail[i] == ts[i + 1]);
        }
    }
    lemma_token_round_trip(t, tokens_bytes(tail) + rest);
    let n = token_bytes(t).len();
    assert(s.skip(n as int) =~= tokens_bytes(tail) + rest);
    lemma_rest_round_trip(tail, first_frames(t), rest);
}

/// An integer from 0 to 63, signed or unsigned, takes a single byte: its
/// tag. (A negative one never does: it needs the `CP_INT` tag and a varint.)
pub proof fn lemma_small_ints_inline(v: u64)
    requires
        v < 64,
    ensures
        token_bytes(TokenView::UInt(v)).len() == 1,
        token_bytes(TokenView::Int(v as i64)).len() == 1,
{
}

/// A timestamp on a whole second with an offset of whole quarter hours
/// reads back as itself, so writing it again gives the same bytes.
pub proof fn lemma_datetime_canonical(dt: CPDateTime, rest: Seq<u8>)
    requires
        datetime_encodable(dt),
        (dt.msec as int) % 1000 == 0,
        (dt.utc_offset as int) % 900 == 0,
    ensures
        parse_token(token_bytes(TokenView::DateTime(dt)) + rest) matches Ok((t, n)) && token_bytes(t)
            == token_bytes(TokenView::DateTime(dt)) && n == token_bytes(t).len(),
{
    lemma_datetime_token_round_trip(dt, rest);
}

} // verus!
