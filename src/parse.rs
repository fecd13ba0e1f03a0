//! A cursor over the elements of an array frame, used to parse commands.
use vstd::prelude::*;
use vstd::utf8::*;

use crate::frame::{copy_range, is_digit, digits_value, scalar_model, string_from_utf8, Frame, FrameModel};

verus! {

/// Cursor over the elements of an array frame.
///
/// The elements not yet read are kept in reverse order, so that the next one is
/// the last of the vector.
pub struct Parse {
    parts: Vec<Frame>,
}

/// Failure to read the next element.
#[derive(Debug, Clone, PartialEq, Eq)]
pub enum ParseError {
    /// Every element has been read. Optional trailing fields treat this as absence.
    EndOfStream,
    /// The element has the wrong kind or an invalid encoding.
    Other(String),
}

/// Index just after the run of ASCII digits that starts at `i`.
pub open spec fn digit_run_end(s: Seq<u8>, i: int) -> int
    decreases s.len() - i,
{
    if 0 <= i < s.len() && is_digit(s[i]) {
        digit_run_end(s, i + 1)
    } else {
        i
    }
}

/// What `atoi::atoi::<u64>` returns: an optional sign, then the longest run of
/// digits; nothing when neither was read or the value does not fit, and zero for
/// a minus sign followed only by zeros.
pub open spec fn atoi_u64(s: Seq<u8>) -> Option<u64> {
    let signed = s.len() > 0 && (s[0] == 43 || s[0] == 45);
    let start: int = if signed {
        1
    } else {
        0
    };
    let end = digit_run_end(s, start);
    let v = digits_value(s.subrange(start, end));
    if end == 0 {
        None
    } else if signed && s[0] == 45 {
        if v == 0 {
            Some(0)
        } else {
            None
        }
    } else if v <= u64::MAX {
        Some(v as u64)
    } else {
        None
    }
}

/// Relies on `atoi::atoi::<u64>`: reads an optional sign and the digits that
/// follow it, ignoring the rest, with `None` on overflow.
#[verifier::external_body]
fn atoi_u64_exec(text: &[u8]) -> (r: Option<u64>)
    ensures
        r == atoi_u64(text@),
{
    atoi::atoi::<u64>(text)
}

/// The text an element stands for: a simple string, or a bulk string that is valid UTF-8.
pub open spec fn string_of(m: FrameModel) -> Option<Seq<char>> {
    match m {
        FrameModel::Simple(s) => Some(s),
        FrameModel::Bulk(b) => if valid_utf8(b) {
            Some(decode_utf8(b))
        } else {
            None
        },
        _ => None,
    }
}

/// The bytes an element stands for: a simple string or a bulk string.
pub open spec fn bytes_of(m: FrameModel) -> Option<Seq<u8>> {
    match m {
        FrameModel::Simple(s) => Some(encode_utf8(s)),
        FrameModel::Bulk(b) => Some(b),
        _ => None,
    }
}

/// The integer an element stands for: an integer, or the number at the start of
/// a simple or bulk string.
pub open spec fn int_of(m: FrameModel) -> Option<u64> {
    match m {
        FrameModel::Integer(v) => Some(v),
        FrameModel::Simple(s) => atoi_u64(encode_utf8(s)),
        FrameModel::Bulk(b) => atoi_u64(b),
        _ => None,
    }
}

/// Copies the bytes of a string.
pub fn string_bytes(s: &String) -> (r: Vec<u8>)
    ensures
        r@ == encode_utf8(s@),
{
    let b = s.as_str().as_bytes();
    copy_range(b, 0, b.len())
}

impl Parse {
    /// The elements not yet read, in order.
    pub closed spec fn rest(&self) -> Seq<FrameModel> {
        Seq::new(self.parts@.len(), |i: int| scalar_model(self.parts@[self.parts@.len() - 1 - i]))
    }

    /// Starts a cursor over the elements of `frame`, which must be an array.
    pub fn new(frame: Frame) -> (r: Result<Parse, ParseError>)
        ensures
            r is Ok <==> frame@ is Array,
            r matches Ok(p) ==> p.rest() == frame@->Array_0,
            r matches Err(e) ==> e is Other,
    {
        match frame {
            Frame::Array(mut items) => {
                let ghost orig = items@;
                let mut parts: Vec<Frame> = Vec::new();
                while items.len() > 0
                    invariant
                        items@.len() + parts@.len() == orig.len(),
                        items@ == orig.subrange(0, items@.len() as int),
                        forall|j: int|
                            0 <= j < parts@.len() ==> #[trigger] parts@[j] == orig[orig.len() - 1
                                - j],
                    decreases items@.len(),
                {
                    let f = items.pop().unwrap();
                    parts.push(f);
                    assert(items@ =~= orig.subrange(0, items@.len() as int));
                }
                let p = Parse { parts };
                assert(p.rest() =~= frame@->Array_0);
                Ok(p)
            },
            _ => Err(ParseError::Other("protocol error; expected array".to_owned())),
        }
    }

    /// The next element.
    fn next(&mut self) -> (r: Result<Frame, ParseError>)
        ensures
            old(self).rest().len() == 0 ==> r is Err && r->Err_0 is EndOfStream && final(self).rest()
                == old(self).rest(),
            old(self).rest().len() > 0 ==> r is Ok && scalar_model(r->Ok_0) == old(self).rest()[0]
                && final(self).rest() == old(self).rest().drop_first(),
    {
        match self.parts.pop() {
            Some(f) => {
                assert(final(self).rest() =~= old(self).rest().drop_first());
                Ok(f)
            },
            None => Err(ParseError::EndOfStream),
        }
    }

    /// The next element as text: a simple string, or a bulk string holding UTF-8.
    pub fn next_string(&mut self) -> (r: Result<String, ParseError>)
        ensures
            old(self).rest().len() == 0 ==> r is Err && r->Err_0 is EndOfStream && final(self).rest()
                == old(self).rest(),
            old(self).rest().len() > 0 ==> final(self).rest() == old(self).rest().drop_first() && match string_of(old(self).rest()[0]) {
                Some(t) => r is Ok && r->Ok_0@ == t,
                None => r is Err && r->Err_0 is Other,
            },
    {
        match self.next()? {
            Frame::Simple(s) => Ok(s),
            Frame::Bulk(data) => match string_from_utf8(data) {
                Some(s) => Ok(s),
                None => Err(ParseError::Other("protocol error; invalid string".to_owned())),
            },
            _ => Err(
                ParseError::Other(
                    "protocol error; expected simple frame or bulk frame".to_owned(),
                ),
            ),
        }
    }

    /// The next element as raw bytes: a simple string or a bulk string.
    pub fn next_bytes(&mut self) -> (r: Result<Vec<u8>, ParseError>)
        ensures
            old(self).rest().len() == 0 ==> r is Err && r->Err_0 is EndOfStream && final(self).rest()
                == old(self).rest(),
            old(self).rest().len() > 0 ==> final(self).rest() == old(self).rest().drop_first() && match bytes_of(old(self).rest()[0]) {
                Some(b) => r is Ok && r->Ok_0@ == b,
                None => r is Err && r->Err_0 is Other,
            },
    {
        match self.next()? {
            Frame::Simple(s) => Ok(string_bytes(&s)),
            Frame::Bulk(data) => Ok(data),
            _ => Err(
                ParseError::Other(
                    "protocol error; expected simple frame or bulk frame".to_owned(),
                ),
            ),
        }
    }

    /// The next element as an unsigned integer: an integer frame, or the number
    /// that a simple or bulk string starts with.
    pub fn next_int(&mut self) -> (r: Result<u64, ParseError>)
        ensures
            old(self).rest().len() == 0 ==> r is Err && r->Err_0 is EndOfStream && final(self).rest()
                == old(self).rest(),
            old(self).rest().len() > 0 ==> final(self).rest() == old(self).rest().drop_first() && match int_of(old(self).rest()[0]) {
                Some(v) => r == Ok::<u64, ParseError>(v),
                None => r is Err && r->Err_0 is Other,
            },
    {
        let parsed = match self.next()? {
            Frame::Integer(v) => {
                return Ok(v);
            },
            Frame::Simple(data) => atoi_u64_exec(data.as_str().as_bytes()),
            Frame::Bulk(data) => atoi_u64_exec(data.as_slice()),
            _ => {
                return Err(
                    ParseError::Other("protocol error; expected int frame".to_owned()),
                );
            },
        };
        match parsed {
            Some(v) => Ok(v),
            None => Err(ParseError::Other("protocol error; invalid number".to_owned())),
        }
    }

    /// Succeeds only when every element has been read.
    pub fn finish(&mut self) -> (r: Result<(), ParseError>)
        ensures
            r is Ok <==> old(self).rest().len() == 0,
            r matches Err(e) ==> e is Other,
            final(self).rest() == old(self).rest(),
    {
        if self.parts.len() == 0 {
            Ok(())
        } else {
            Err(ParseError::Other("protocol error; expected end of frame, but there was more".to_owned()))
        }
    }
}

} // verus!
