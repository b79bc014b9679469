//! Writing tokens as bytes.

use vstd::prelude::*;
use vstd::string::StringSliceAdditionalSpecFns;
use crate::error::Error;
use crate::types::{
    CP_BLOB, CP_DATETIME, CP_DECIMAL, CP_DOUBLE, CP_FALSE, CP_IMAP, CP_INT, CP_LIST, CP_MAP,
    CP_NULL, CP_STRING, CP_TERM, CP_TRUE, CP_UINT,
};
use crate::varint::{serialize_raw_i64, serialize_raw_u64};
use crate::decimal::CPDecimal;
use crate::datetime::{datetime_to_payload, CPDateTime};
use crate::token::{
    le_bytes, lemma_tokens_bytes_push, token_bytes, token_encodable, token_error, token_views,
    tokens_bytes, Token, TokenView,
};

verus! {

/// Appends `le_bytes(v, n)` to `w`.
pub(crate) fn push_le(w: &mut Vec<u8>, v: u64, n: usize)
    ensures
        final(w)@ == old(w)@ + le_bytes(v as nat, n as nat),
    decreases n,
{
    if n == 0 {
        assert(old(w)@ + le_bytes(v as nat, 0) =~= old(w)@);
        return;
    }
    w.push((v % 256) as u8);
    push_le(w, v / 256, n - 1);
    assert(final(w)@ =~= old(w)@ + le_bytes(v as nat, n as nat));
}

/// Appends the bytes `b` to `w`.
fn push_all(w: &mut Vec<u8>, b: &[u8])
    ensures
        final(w)@ == old(w)@ + b@,
{
    let mut i: usize = 0;
    while i < b.len()
        invariant
            i <= b@.len(),
            w@ == old(w)@ + b@.subrange(0, i as int),
        decreases b@.len() - i,
    {
        w.push(b[i]);
        i = i + 1;
        assert(w@ =~= old(w)@ + b@.subrange(0, i as int));
    }
    assert(b@.subrange(0, i as int) =~= b@);
}

/// Writes tokens to a growing buffer of bytes.
pub struct Serializer {
    pub writer: Vec<u8>,
}

impl Serializer {
    /// A serializer that appends to `writer`.
    pub fn new(writer: Vec<u8>) -> (r: Self)
        ensures
            r.writer@ == writer@,
    {
        Serializer { writer }
    }

    /// The bytes written so far, after those it started with.
    pub fn into_inner(self) -> (r: Vec<u8>)
        ensures
            r@ == self.writer@,
    {
        self.writer
    }

    pub fn serialize_bool(&mut self, v: bool)
        ensures
            final(self).writer@ == old(self).writer@ + token_bytes(TokenView::Bool(v)),
    {
        self.writer.push(
            if v {
                CP_TRUE
            } else {
                CP_FALSE
            },
        );
        assert(self.writer@ =~= old(self).writer@ + token_bytes(TokenView::Bool(v)));
    }

    /// An unsigned integer: inline below 64, else its tag and a varint.
    pub fn serialize_u64(&mut self, v: u64)
        ensures
            final(self).writer@ == old(self).writer@ + token_bytes(TokenView::UInt(v)),
    {
        if v < 64 {
            self.writer.push(v as u8);
        } else {
            self.writer.push(CP_UINT);
            serialize_raw_u64(&mut self.writer, v);
        }
        assert(self.writer@ =~= old(self).writer@ + token_bytes(TokenView::UInt(v)));
    }

    /// A signed integer: inline from 0 to 63, else its tag and a varint;
    /// `i64::MIN` is refused and nothing is written.
    pub fn serialize_i64(&mut self, v: i64) -> (r: Result<(), Error>)
        ensures
            v != i64::MIN ==> r is Ok && final(self).writer@ == old(self).writer@ + token_bytes(
                TokenView::Int(v),
            ),
            v == i64::MIN ==> r == Err::<(), Error>(Error::UnsupportedType) && final(self).writer@
                == old(self).writer@,
    {
        if v == i64::MIN {
            return Err(Error::UnsupportedType);
        }
        if 0 <= v && v < 64 {
            self.writer.push((0x40 + v) as u8);
        } else {
            self.writer.push(CP_INT);
            // cannot fail: v is not i64::MIN
            let _ = serialize_raw_i64(&mut self.writer, v);
        }
        assert(self.writer@ =~= old(self).writer@ + token_bytes(TokenView::Int(v)));
        Ok(())
    }

    /// A binary64 number given by its bits: the tag, then eight bytes,
    /// least significant first.
    pub fn serialize_f64_bits(&mut self, bits: u64)
        ensures
            final(self).writer@ == old(self).writer@ + token_bytes(TokenView::Double(bits)),
    {
        self.writer.push(CP_DOUBLE);
        push_le(&mut self.writer, bits, 8);
        assert(self.writer@ =~= old(self).writer@ + token_bytes(TokenView::Double(bits)));
    }

    /// Text: the tag, the length in bytes as a varint, the UTF-8 bytes.
    pub fn serialize_str(&mut self, v: &str)
        ensures
            final(self).writer@ == old(self).writer@ + token_bytes(TokenView::String(v@)),
            token_encodable(TokenView::String(v@)),
    {
        let bytes = v.as_bytes();
        self.writer.push(CP_STRING);
        serialize_raw_u64(&mut self.writer, bytes.len() as u64);
        push_all(&mut self.writer, bytes);
        assert(self.writer@ =~= old(self).writer@ + token_bytes(TokenView::String(v@)));
    }

    /// A blob: the tag, the length as a varint, the bytes.
    pub fn serialize_bytes(&mut self, v: &[u8])
        ensures
            final(self).writer@ == old(self).writer@ + token_bytes(TokenView::Blob(v@)),
            token_encodable(TokenView::Blob(v@)),
    {
        self.writer.push(CP_BLOB);
        serialize_raw_u64(&mut self.writer, v.len() as u64);
        push_all(&mut self.writer, v);
        assert(self.writer@ =~= old(self).writer@ + token_bytes(TokenView::Blob(v@)));
    }

    /// Null, which also stands for an absent optional value.
    pub fn serialize_unit(&mut self)
        ensures
            final(self).writer@ == old(self).writer@ + token_bytes(TokenView::Null),
    {
        self.writer.push(CP_NULL);
        assert(self.writer@ =~= old(self).writer@ + token_bytes(TokenView::Null));
    }

    /// An absent optional value: null.
    pub fn serialize_none(&mut self)
        ensures
            final(self).writer@ == old(self).writer@ + token_bytes(TokenView::Null),
    {
        self.serialize_unit();
    }

    /// A decimal: the tag, the mantissa and the exponent as signed varints;
    /// a mantissa of `i64::MIN` is refused and nothing is written.
    pub fn serialize_decimal(&mut self, d: &CPDecimal) -> (r: Result<(), Error>)
        ensures
            d.mantissa != i64::MIN ==> r is Ok && final(self).writer@ == old(self).writer@
                + token_bytes(TokenView::Decimal(*d)),
            d.mantissa == i64::MIN ==> r == Err::<(), Error>(Error::UnsupportedType)
                && final(self).writer@ == old(self).writer@,
    {
        if d.mantissa == i64::MIN {
            return Err(Error::UnsupportedType);
        }
        self.writer.push(CP_DECIMAL);
        // neither can fail: the mantissa is not i64::MIN, the exponent an i8
        let _ = serialize_raw_i64(&mut self.writer, d.mantissa);
        let _ = serialize_raw_i64(&mut self.writer, d.exponent as i64);
        assert(self.writer@ =~= old(self).writer@ + token_bytes(TokenView::Decimal(*d)));
        Ok(())
    }

    /// A timestamp: the tag and the packed instant as a signed varint;
    /// refused, with nothing written, outside the calendar or where the
    /// offset needs more than seven bits of quarter hours.
    pub fn serialize_datetime(&mut self, dt: &CPDateTime) -> (r: Result<(), Error>)
        ensures
            token_encodable(TokenView::DateTime(*dt)) ==> r is Ok && final(self).writer@ == old(
                self,
            ).writer@ + token_bytes(TokenView::DateTime(*dt)),
            !token_encodable(TokenView::DateTime(*dt)) ==> r == Err::<(), Error>(
                Error::InvalidDateTime,
            ) && final(self).writer@ == old(self).writer@,
    {
        let payload = match datetime_to_payload(dt) {
            Ok(p) => p,
            Err(e) => {
                return Err(e);
            },
        };
        self.writer.push(CP_DATETIME);
        // cannot fail: the packed form is never i64::MIN
        let _ = serialize_raw_i64(&mut self.writer, payload);
        assert(self.writer@ =~= old(self).writer@ + token_bytes(TokenView::DateTime(*dt)));
        Ok(())
    }

    /// Opens a list; `end` closes it.
    pub fn serialize_seq(&mut self)
        ensures
            final(self).writer@ == old(self).writer@ + token_bytes(TokenView::List),
    {
        self.writer.push(CP_LIST);
        assert(self.writer@ =~= old(self).writer@ + token_bytes(TokenView::List));
    }

    /// Opens a map with string keys; `end` closes it.
    pub fn serialize_map(&mut self)
        ensures
            final(self).writer@ == old(self).writer@ + token_bytes(TokenView::StrMap),
    {
        self.writer.push(CP_MAP);
        assert(self.writer@ =~= old(self).writer@ + token_bytes(TokenView::StrMap));
    }

    /// Opens a map with integer keys; `end` closes it.
    pub fn serialize_imap(&mut self)
        ensures
            final(self).writer@ == old(self).writer@ + token_bytes(TokenView::IMap),
    {
        self.writer.push(CP_IMAP);
        assert(self.writer@ =~= old(self).writer@ + token_bytes(TokenView::IMap));
    }

    /// A variant of a tagged union that carries nothing: its name.
    pub fn serialize_unit_variant(&mut self, variant: &str)
        ensures
            final(self).writer@ == old(self).writer@ + token_bytes(TokenView::String(variant@)),
    {
        self.serialize_str(variant);
    }

    /// Opens a variant of a tagged union that carries a payload: a map with
    /// one entry from the variant's name to the payload. The payload comes
    /// next, then `end` closes the map.
    pub fn open_variant(&mut self, variant: &str)
        ensures
            final(self).writer@ == old(self).writer@ + token_bytes(TokenView::StrMap) + token_bytes(
                TokenView::String(variant@),
            ),
    {
        self.serialize_map();
        self.serialize_str(variant);
    }

    /// Closes the innermost open container.
    pub fn end(&mut self)
        ensures
            final(self).writer@ == old(self).writer@ + token_bytes(TokenView::End),
    {
        self.writer.push(CP_TERM);
        assert(self.writer@ =~= old(self).writer@ + token_bytes(TokenView::End));
    }

    /// Any token; one that the format cannot carry is refused and nothing
    /// is written.
    pub fn serialize_token(&mut self, t: &Token) -> (r: Result<(), Error>)
        ensures
            token_encodable(t@) ==> r is Ok && final(self).writer@ == old(self).writer@
                + token_bytes(t@),
            !token_encodable(t@) ==> r == Err::<(), Error>(token_error(t@)) && final(self).writer@
                == old(self).writer@,
    {
        match t {
            Token::Null => {
                self.serialize_unit();
                Ok(())
            },
            Token::Bool(b) => {
                self.serialize_bool(*b);
                Ok(())
            },
            Token::UInt(v) => {
                self.serialize_u64(*v);
                Ok(())
            },
            Token::Int(v) => self.serialize_i64(*v),
            Token::Double(bits) => {
                self.serialize_f64_bits(*bits);
                Ok(())
            },
            Token::Decimal(d) => self.serialize_decimal(d),
            Token::DateTime(dt) => self.serialize_datetime(dt),
            Token::Blob(b) => {
                self.serialize_bytes(b.as_slice());
                Ok(())
            },
            Token::String(s) => {
                self.serialize_str(s.as_str());
                Ok(())
            },
            Token::List => {
                self.serialize_seq();
                Ok(())
            },
            Token::StrMap => {
                self.serialize_map();
                Ok(())
            },
            Token::IMap => {
                self.serialize_imap();
                Ok(())
            },
            Token::End => {
                self.end();
                Ok(())
            },
        }
    }
}

/// The bytes of a stream of tokens, such as the tokens of one value; the
/// first token that the format cannot carry is refused.
pub fn to_vec(tokens: &[Token]) -> (r: Result<Vec<u8>, Error>)
    ensures
        (forall|i: int| 0 <= i < tokens@.len() ==> token_encodable(#[trigger] tokens@[i]@)) ==> (r
            matches Ok(b) && b@ == tokens_bytes(token_views(tokens@))),
        forall|i: int|
            0 <= i < tokens@.len() && !token_encodable(#[trigger] tokens@[i]@) && (forall|j: int|
                0 <= j < i ==> token_encodable(#[trigger] tokens@[j]@)) ==> r == Err::<Vec<u8>, Error>(
                token_error(tokens@[i]@),
            ),
{
    let mut ser = Serializer::new(Vec::new());
    let mut i: usize = 0;
    assert(token_views(tokens@.take(0)) =~= seq![]);
    while i < tokens.len()
        invariant
            i <= tokens@.len(),
            ser.writer@ == tokens_bytes(token_views(tokens@.take(i as int))),
            forall|j: int| 0 <= j < i ==> token_encodable(#[trigger] tokens@[j]@),
        decreases tokens@.len() - i,
    {
        match ser.serialize_token(&tokens[i]) {
            Ok(()) => {},
            Err(e) => {
                assert forall|k: int|
                    0 <= k < tokens@.len() && !token_encodable(#[trigger] tokens@[k]@) && (forall|
                        j: int,
                    | 0 <= j < k ==> token_encodable(#[trigger] tokens@[j]@)) implies k == i by {
                    if k < i {
                    } else if k > i {
                        assert(token_encodable(tokens@[i as int]@));
                    }
                }
                return Err(e);
            },
        }
        proof {
            lemma_tokens_bytes_push(token_views(tokens@.take(i as int)), tokens@[i as int]@);
            assert(token_views(tokens@.take(i + 1)) =~= token_views(tokens@.take(i as int)).push(
                tokens@[i as int]@,
            ));
        }
        i = i + 1;
    }
    assert(tokens@.take(i as int) =~= tokens@);
    Ok(ser.into_inner())
}

} // verus!
