//! Reading tokens from bytes, with a one-byte look-ahead.

use vstd::prelude::*;
use vstd::utf8::{decode_utf8, valid_utf8};
use crate::error::Error;
use crate::types::{
    CP_BLOB, CP_DATETIME, CP_DECIMAL, CP_DOUBLE, CP_FALSE, CP_IMAP, CP_INT, CP_LIST, CP_MAP,
    CP_NULL, CP_STRING, CP_TERM, CP_TRUE, CP_UINT, INLINE_END, INLINE_INT_BASE,
};
use crate::varint::{
    lemma_pow256_mono, lemma_pow256_small, parse_varint, parse_varuint, pow256, read_varint,
    read_varuint,
};
use crate::decimal::CPDecimal;
use crate::datetime::{datetime_from_payload, CPDateTime};
use crate::token::{
    allowed, first_frames, frame_of, le_value, lemma_parse_token_len, opens, parse_chunk, parse_datetime,
    may_close, parse_decimal, parse_more, parse_rest_of, parse_token, parse_value, step, token_views, Frame,
    Token, TokenView,
};

verus! {

/// Relies on `String::from_utf8`, which accepts exactly the valid UTF-8
/// sequences and keeps the characters that they encode.
#[verifier::external_body]
fn string_from_utf8(bytes: Vec<u8>) -> (r: Option<String>)
    ensures
        r is Some <==> valid_utf8(bytes@),
        r matches Some(s) ==> s@ == decode_utf8(bytes@),
{
    String::from_utf8(bytes).ok()
}

/// The `n` bytes at `pos` in `s`, least significant first.
pub(crate) fn read_le(s: &[u8], pos: usize, n: usize) -> (r: u64)
    requires
        n <= 8,
        pos + n <= s@.len() <= usize::MAX,
    ensures
        r == le_value(s@.subrange(pos as int, pos + n)),
        r < pow256(n as nat),
{
    let mut acc: u64 = 0;
    let mut i: usize = n;
    assert(s@.subrange(pos + n, pos + n).len() == 0);
    assert(pow256(0) == 1);
    while i > 0
        invariant
            i <= n <= 8,
            pos + n <= s@.len() <= usize::MAX,
            acc == le_value(s@.subrange(pos + i, pos + n)),
            acc < pow256((n - i) as nat),
        decreases i,
    {
        proof {
            lemma_pow256_small();
            lemma_pow256_mono((n - i) as nat, 7);
        }
        i = i - 1;
        assert(s@.subrange(pos + i, pos + n).drop_first() =~= s@.subrange(pos + i + 1, pos + n));
        acc = s[pos + i] as u64 + 256 * acc;
    }
    acc
}

/// Reads tokens from a slice of bytes.
pub struct Deserializer<'a> {
    reader: &'a [u8],
    pos: usize,
}

impl<'a> Deserializer<'a> {
    /// The bytes not read yet.
    pub closed spec fn rest(&self) -> Seq<u8> {
        self.reader@.subrange(self.pos as int, self.reader@.len() as int)
    }

    pub closed spec fn wf(&self) -> bool {
        self.pos <= self.reader@.len() <= usize::MAX
    }

    /// A deserializer that reads `reader` from its start.
    pub fn from_reader(reader: &'a [u8]) -> (r: Self)
        ensures
            r.wf(),
            r.rest() == reader@,
    {
        // the length of a slice fits in a usize, as `len` states
        let _ = reader.len();
        let r = Deserializer { reader, pos: 0 };
        assert(r.rest() =~= reader@);
        r
    }

    /// Whether every byte has been read.
    pub fn is_empty(&self) -> (r: bool)
        requires
            self.wf(),
        ensures
            r == (self.rest().len() == 0),
    {
        self.pos == self.reader.len()
    }

    /// The next byte, which stays unread.
    pub fn peek_u8(&self) -> (r: Result<u8, Error>)
        requires
            self.wf(),
        ensures
            self.rest().len() == 0 ==> r == Err::<u8, Error>(Error::Eof),
            self.rest().len() > 0 ==> r == Ok::<u8, Error>(self.rest()[0]),
    {
        if self.pos < self.reader.len() {
            Ok(self.reader[self.pos])
        } else {
            Err(Error::Eof)
        }
    }

    /// Reads the next byte.
    pub fn next_u8(&mut self) -> (r: Result<u8, Error>)
        requires
            old(self).wf(),
        ensures
            final(self).wf(),
            old(self).rest().len() == 0 ==> r == Err::<u8, Error>(Error::Eof),
            old(self).rest().len() > 0 ==> r == Ok::<u8, Error>(old(self).rest()[0])
                && final(self).rest() == old(self).rest().drop_first(),
    {
        if self.pos < self.reader.len() {
            let b = self.reader[self.pos];
            self.pos = self.pos + 1;
            assert(self.rest() =~= old(self).rest().drop_first());
            Ok(b)
        } else {
            Err(Error::Eof)
        }
    }

    /// Reads an unsigned variable-length integer.
    pub fn read_u64_raw_val(&mut self) -> (r: Result<u64, Error>)
        requires
            old(self).wf(),
        ensures
            final(self).wf(),
            match parse_varuint(old(self).rest()) {
                Ok((v, n)) => r == Ok::<u64, Error>(v) && final(self).rest() == old(
                    self,
                ).rest().skip(n as int),
                Err(e) => r == Err::<u64, Error>(e),
            },
    {
        match read_varuint(self.reader, self.pos) {
            Ok((v, n)) => {
                self.pos = self.pos + n;
                assert(self.rest() =~= old(self).rest().skip(n as int));
                Ok(v)
            },
            Err(e) => Err(e),
        }
    }

    /// Reads a signed variable-length integer.
    pub fn read_i64_raw_val(&mut self) -> (r: Result<i64, Error>)
        requires
            old(self).wf(),
        ensures
            final(self).wf(),
            match parse_varint(old(self).rest()) {
                Ok((v, n)) => r == Ok::<i64, Error>(v) && final(self).rest() == old(
                    self,
                ).rest().skip(n as int),
                Err(e) => r == Err::<i64, Error>(e),
            },
    {
        match read_varint(self.reader, self.pos) {
            Ok((v, n)) => {
                self.pos = self.pos + n;
                assert(self.rest() =~= old(self).rest().skip(n as int));
                Ok(v)
            },
            Err(e) => Err(e),
        }
    }

    /// Reads a length as a varint and then that many bytes.
    fn read_chunk(&mut self) -> (r: Result<Vec<u8>, Error>)
        requires
            old(self).wf(),
        ensures
            final(self).wf(),
            match parse_chunk(old(self).rest()) {
                Ok((b, n)) => r matches Ok(v) && v@ == b && final(self).rest() == old(
                    self,
                ).rest().skip(n as int),
                Err(e) => r == Err::<Vec<u8>, Error>(e),
            },
    {
        let ghost s = self.rest();
        let len = match self.read_u64_raw_val() {
            Ok(len) => len,
            Err(e) => {
                return Err(e);
            },
        };
        let ghost n = parse_varuint(s)->Ok_0.1;
        let ghost mid = self.rest();
        assert(mid == s.skip(n as int));
        if ((self.reader.len() - self.pos) as u64) < len {
            return Err(Error::Eof);
        }
        let end = self.pos + len as usize;
        assert(n + len <= s.len());
        let bytes = vstd::slice::slice_to_vec(vstd::slice::slice_subrange(self.reader, self.pos, end));
        assert(bytes@ =~= s.subrange(n as int, n + len));
        self.pos = end;
        assert(self.rest() =~= mid.skip(len as int));
        assert(mid.skip(len as int) =~= s.skip(n + len));
        Ok(bytes)
    }

    /// Reads the eight bytes of a binary64 number, least significant first.
    fn read_double(&mut self) -> (r: Result<u64, Error>)
        requires
            old(self).wf(),
        ensures
            final(self).wf(),
            old(self).rest().len() < 8 ==> r == Err::<u64, Error>(Error::Eof),
            old(self).rest().len() >= 8 ==> r == Ok::<u64, Error>(
                le_value(old(self).rest().take(8)) as u64,
            ) && final(self).rest() == old(self).rest().skip(8),
    {
        if self.reader.len() - self.pos < 8 {
            return Err(Error::Eof);
        }
        let bits = read_le(self.reader, self.pos, 8);
        assert(old(self).rest().take(8) =~= self.reader@.subrange(self.pos as int, self.pos + 8));
        self.pos = self.pos + 8;
        assert(self.rest() =~= old(self).rest().skip(8));
        Ok(bits)
    }

    /// Reads the mantissa and exponent of a decimal.
    fn read_decimal(&mut self) -> (r: Result<CPDecimal, Error>)
        requires
            old(self).wf(),
        ensures
            final(self).wf(),
            match parse_decimal(old(self).rest()) {
                Ok((d, n)) => r == Ok::<CPDecimal, Error>(d) && final(self).rest() == old(
                    self,
                ).rest().skip(n as int),
                Err(e) => r == Err::<CPDecimal, Error>(e),
            },
    {
        let ghost s = self.rest();
        let m = match self.read_i64_raw_val() {
            Ok(v) => v,
            Err(e) => {
                return Err(e);
            },
        };
        let ghost n1 = parse_varint(s)->Ok_0.1;
        let e = match self.read_i64_raw_val() {
            Ok(v) => v,
            Err(e) => {
                return Err(e);
            },
        };
        let ghost n2 = parse_varint(s.skip(n1 as int))->Ok_0.1;
        assert(self.rest() =~= s.skip(n1 + n2 as int));
        if -128 <= e && e <= 127 {
            Ok(CPDecimal { mantissa: m, exponent: e as i8 })
        } else {
            Err(Error::InvalidType)
        }
    }

    /// Reads a packed timestamp.
    fn read_datetime(&mut self) -> (r: Result<CPDateTime, Error>)
        requires
            old(self).wf(),
        ensures
            final(self).wf(),
            match parse_datetime(old(self).rest()) {
                Ok((dt, n)) => r == Ok::<CPDateTime, Error>(dt) && final(self).rest() == old(
                    self,
                ).rest().skip(n as int),
                Err(e) => r == Err::<CPDateTime, Error>(e),
            },
    {
        match self.read_i64_raw_val() {
            Ok(v) => datetime_from_payload(v),
            Err(e) => Err(e),
        }
    }

    /// Reads a length, then that many bytes of UTF-8.
    fn read_string(&mut self) -> (r: Result<String, Error>)
        requires
            old(self).wf(),
        ensures
            final(self).wf(),
            match parse_chunk(old(self).rest()) {
                Ok((b, n)) => if valid_utf8(b) {
                    r matches Ok(text) && text@ == decode_utf8(b) && final(self).rest() == old(
                        self,
                    ).rest().skip(n as int)
                } else {
                    r == Err::<String, Error>(Error::InvalidUtf8)
                },
                Err(e) => r == Err::<String, Error>(e),
            },
    {
        match self.read_chunk() {
            Ok(b) => match string_from_utf8(b) {
                Some(text) => Ok(text),
                None => Err(Error::InvalidUtf8),
            },
            Err(e) => Err(e),
        }
    }

    /// Reads the token of one value. A terminator is no value and is
    /// refused here; `more_elements` consumes it.
    pub fn deserialize_any(&mut self) -> (r: Result<Token, Error>)
        requires
            old(self).wf(),
        ensures
            final(self).wf(),
            match parse_token(old(self).rest()) {
                Ok((t, n)) => r matches Ok(tok) && tok@ == t && final(self).rest() == old(
                    self,
                ).rest().skip(n as int),
                Err(e) => r == Err::<Token, Error>(e),
            },
    {
        reveal(parse_token);
        let ghost s = self.rest();
        let tag = match self.next_u8() {
            Ok(b) => b,
            Err(e) => {
                return Err(e);
            },
        };
        let ghost r = self.rest();
        assert(s.skip(1) =~= r);
        if tag < INLINE_INT_BASE {
            Ok(Token::UInt(tag as u64))
        } else if tag < INLINE_END {
            Ok(Token::Int((tag - INLINE_INT_BASE) as i64))
        } else if tag == CP_NULL {
            Ok(Token::Null)
        } else if tag == CP_TRUE {
            Ok(Token::Bool(true))
        } else if tag == CP_FALSE {
            Ok(Token::Bool(false))
        } else if tag == CP_LIST {
            Ok(Token::List)
        } else if tag == CP_MAP {
            Ok(Token::StrMap)
        } else if tag == CP_IMAP {
            Ok(Token::IMap)
        } else if tag == CP_UINT {
            match self.read_u64_raw_val() {
                Ok(v) => {
                    assert(s.skip(1 + parse_varuint(r)->Ok_0.1 as int) =~= r.skip(parse_varuint(r)->Ok_0.1 as int));
                    Ok(Token::UInt(v))
                },
                Err(e) => Err(e),
            }
        } else if tag == CP_INT {
            match self.read_i64_raw_val() {
                Ok(v) => {
                    assert(s.skip(1 + parse_varint(r)->Ok_0.1 as int) =~= r.skip(parse_varint(r)->Ok_0.1 as int));
                    Ok(Token::Int(v))
                },
                Err(e) => Err(e),
            }
        } else if tag == CP_DOUBLE {
            match self.read_double() {
                Ok(bits) => {
                    assert(self.rest() =~= s.skip(9));
                    Ok(Token::Double(bits))
                },
                Err(e) => Err(e),
            }
        } else if tag == CP_DECIMAL {
            match self.read_decimal() {
                Ok(d) => {
                    assert(self.rest() =~= s.skip(1 + parse_decimal(r)->Ok_0.1 as int));
                    Ok(Token::Decimal(d))
                },
                Err(e) => Err(e),
            }
        } else if tag == CP_DATETIME {
            match self.read_datetime() {
                Ok(dt) => {
                    assert(self.rest() =~= s.skip(1 + parse_datetime(r)->Ok_0.1 as int));
                    Ok(Token::DateTime(dt))
                },
                Err(e) => Err(e),
            }
        } else if tag == CP_BLOB {
            match self.read_chunk() {
                Ok(b) => {
                    assert(self.rest() =~= s.skip(1 + parse_chunk(r)->Ok_0.1 as int));
                    Ok(Token::Blob(b))
                },
                Err(e) => Err(e),
            }
        } else if tag == CP_STRING {
            match self.read_string() {
                Ok(text) => {
                    assert(self.rest() =~= s.skip(1 + parse_chunk(r)->Ok_0.1 as int));
                    Ok(Token::String(text))
                },
                Err(e) => Err(e),
            }
        } else {
            Err(Error::InvalidType)
        }
    }

    /// Before an optional value: reads a null and answers `false` (absent),
    /// or answers `true` and reads nothing.
    pub fn deserialize_option(&mut self) -> (r: Result<bool, Error>)
        requires
            old(self).wf(),
        ensures
            final(self).wf(),
            old(self).rest().len() == 0 ==> r == Err::<bool, Error>(Error::Eof),
            old(self).rest().len() > 0 && old(self).rest()[0] == CP_NULL ==> r == Ok::<bool, Error>(
                false,
            ) && final(self).rest() == old(self).rest().drop_first(),
            old(self).rest().len() > 0 && old(self).rest()[0] != CP_NULL ==> r == Ok::<bool, Error>(
                true,
            ) && final(self).rest() == old(self).rest(),
    {
        match self.peek_u8() {
            Ok(b) => {
                if b == CP_NULL {
                    let _ = self.next_u8();
                    Ok(false)
                } else {
                    Ok(true)
                }
            },
            Err(e) => Err(e),
        }
    }

    /// Inside a container: answers whether another element follows, and
    /// reads the terminator where none does.
    pub fn more_elements(&mut self) -> (r: Result<bool, Error>)
        requires
            old(self).wf(),
        ensures
            final(self).wf(),
            r == parse_more(old(self).rest()),
            r == Ok::<bool, Error>(false) ==> final(self).rest() == old(self).rest().drop_first(),
            r == Ok::<bool, Error>(true) ==> final(self).rest() == old(self).rest(),
    {
        match self.peek_u8() {
            Ok(b) => {
                if b == CP_TERM {
                    let _ = self.next_u8();
                    Ok(false)
                } else {
                    Ok(true)
                }
            },
            Err(e) => Err(e),
        }
    }
}

/// The frame that `t` opens, if it opens a container.
fn frame_opened(t: &Token) -> (r: Option<Frame>)
    ensures
        opens(t@) ==> r == Some(frame_of(t@)),
        !opens(t@) ==> r is None,
{
    match t {
        Token::List => Some(Frame::List),
        Token::StrMap => Some(Frame::Key(false)),
        Token::IMap => Some(Frame::Key(true)),
        _ => None,
    }
}

/// `(acc + ts, done + n)` for what `res` reads, or its error.
pub open spec fn after(
    acc: Seq<TokenView>,
    done: nat,
    res: Result<(Seq<TokenView>, nat), Error>,
) -> Result<(Seq<TokenView>, nat), Error> {
    match res {
        Ok((ts, n)) => Ok((acc + ts, done + n)),
        Err(e) => Err(e),
    }
}

proof fn lemma_after_after(
    acc: Seq<TokenView>,
    done: nat,
    first: Seq<TokenView>,
    k: nat,
    res: Result<(Seq<TokenView>, nat), Error>,
)
    ensures
        after(acc, done, after(first, k, res)) == after(acc + first, done + k, res),
{
    match res {
        Ok((ts, n)) => {
            assert(acc + (first + ts) =~= acc + first + ts);
        },
        Err(e) => {},
    }
}

/// Reads one whole value from the start of `input`: its first token and,
/// where that opens a container, every token up to the container's
/// terminator. Each map entry must have a key and a value, the keys of a
/// map being strings and those of a map with integer keys signed integers.
/// Bytes after the value are left unread.
pub fn from_slice(input: &[u8]) -> (r: Result<Vec<Token>, Error>)
    ensures
        match parse_value(input@) {
            Ok((ts, n)) => r matches Ok(v) && token_views(v@) == ts,
            Err(e) => r == Err::<Vec<Token>, Error>(e),
        },
{
    let mut de = Deserializer::from_reader(input);
    let first = match de.deserialize_any() {
        Ok(t) => t,
        Err(e) => {
            return Err(e);
        },
    };
    proof {
        lemma_parse_token_len(input@);
    }
    let mut stack: Vec<Frame> = Vec::new();
    match frame_opened(&first) {
        Some(f) => stack.push(f),
        None => {},
    }
    assert(stack@ =~= first_frames(first@));
    let mut out: Vec<Token> = Vec::new();
    out.push(first);
    assert(token_views(out@) =~= seq![first@]);
    assert(parse_rest_of(de.rest(), seq![]) == Ok::<(Seq<TokenView>, nat), Error>((seq![], 0)));
    assert(seq![first@] + seq![] =~= seq![first@]);
    while stack.len() > 0
        invariant
            de.wf(),
            de.rest().len() <= input@.len(),
            parse_value(input@) == after(
                token_views(out@),
                (input@.len() - de.rest().len()) as nat,
                parse_rest_of(de.rest(), stack@),
            ),
        decreases de.rest().len(),
    {
        let ghost s = de.rest();
        let ghost acc = token_views(out@);
        let ghost frames = stack@;
        let top = stack[stack.len() - 1];
        assert(top == frames.last());
        match de.more_elements() {
            Err(e) => {
                return Err(e);
            },
            Ok(more) => {
                if !more {
                    if let Frame::Value(_) = top {
                        return Err(Error::InvalidType);
                    }
                    let _ = stack.pop();
                    assert(stack@ =~= frames.drop_last());
                    out.push(Token::End);
                    proof {
                        assert(may_close(frames));
                        assert(parse_rest_of(s, frames) == after(
                            seq![TokenView::End],
                            1,
                            parse_rest_of(s.drop_first(), frames.drop_last()),
                        ));
                        assert(token_views(out@) =~= acc + seq![TokenView::End]);
                        lemma_after_after(
                            acc,
                            (input@.len() - s.len()) as nat,
                            seq![TokenView::End],
                            1,
                            parse_rest_of(s.drop_first(), frames.drop_last()),
                        );
                    }
                } else {
                    let t = match de.deserialize_any() {
                        Ok(t) => t,
                        Err(e) => {
                            return Err(e);
                        },
                    };
                    proof {
                        lemma_parse_token_len(s);
                    }
                    let ghost n = parse_token(s)->Ok_0.1;
                    match top {
                        Frame::List => {},
                        Frame::Key(int_keys) => {
                            let ok = match &t {
                                Token::Int(_) => int_keys,
                                Token::String(_) => !int_keys,
                                _ => false,
                            };
                            if !ok {
                                return Err(Error::InvalidType);
                            }
                            let _ = stack.pop();
                            stack.push(Frame::Value(int_keys));
                        },
                        Frame::Value(int_keys) => {
                            let _ = stack.pop();
                            stack.push(Frame::Key(int_keys));
                        },
                    }
                    match frame_opened(&t) {
                        Some(f) => stack.push(f),
                        None => {},
                    }
                    assert(stack@ =~= step(frames, t@));
                    out.push(t);
                    proof {
                        assert(allowed(frames, t@));
                        assert(parse_rest_of(s, frames) == after(
                            seq![t@],
                            n,
                            parse_rest_of(s.skip(n as int), step(frames, t@)),
                        ));
                        assert(token_views(out@) =~= acc + seq![t@]);
                        lemma_after_after(
                            acc,
                            (input@.len() - s.len()) as nat,
                            seq![t@],
                            n,
                            parse_rest_of(s.skip(n as int), step(frames, t@)),
                        );
                    }
                }
            },
        }
    }
    proof {
        assert(token_views(out@) + seq![] =~= token_views(out@));
    }
    Ok(out)
}

} // verus!
