use vstd::prelude::*;

use super::{bulk_text, expire_option, ms_of_secs, set_fields, skip};
use crate::db::{set_model, State};
use crate::frame::{Frame, FrameModel};
use crate::parse::{int_of, string_bytes, Parse, ParseError};
use crate::text::{str_bytes, text_eq, to_uppercase};

verus! {

/// SET: stores a value under a key, with an optional time to live in milliseconds.
#[derive(Debug)]
pub struct SetCmd {
    key: String,
    value: Vec<u8>,
    expire: Option<u64>,
}

impl View for SetCmd {
    type V = (Seq<char>, Seq<u8>, Option<u64>);

    closed spec fn view(&self) -> (Seq<char>, Seq<u8>, Option<u64>) {
        (self.key@, self.value@, self.expire)
    }
}

impl SetCmd {
    /// A SET of `key` to `value`, expiring `expire` milliseconds after it is applied if given.
    pub fn new(key: &str, value: Vec<u8>, expire: Option<u64>) -> (r: SetCmd)
        ensures
            r@ == (key@, value@, expire),
    {
        SetCmd { key: key.to_owned(), value, expire }
    }

    /// The key.
    pub fn key(&self) -> (r: &str)
        ensures
            r@ == self@.0,
    {
        self.key.as_str()
    }

    /// The value.
    pub fn value(&self) -> (r: &Vec<u8>)
        ensures
            r@ == self@.1,
    {
        &self.value
    }

    /// The time to live, in milliseconds.
    pub fn expire(&self) -> (r: Option<u64>)
        ensures
            r == self@.2,
    {
        self.expire
    }

    /// Reads the key, the value, and an optional `EX seconds` or `PX milliseconds`.
    pub fn parse_frames(parse: &mut Parse) -> (r: Result<SetCmd, ParseError>)
        ensures
            r is Ok <==> set_fields(old(parse).rest()) is Some,
            r matches Ok(s) ==> set_fields(old(parse).rest()) matches Some((k, v, e, n)) && s@ == (
                k,
                v,
                e,
            ) && final(parse).rest() == skip(old(parse).rest(), n),
    {
        let ghost rest = old(parse).rest();
        let key = parse.next_string()?;
        let value = parse.next_bytes()?;
        proof {
            assert(rest.drop_first().drop_first() =~= skip(rest, 2));
        }
        let expire = match parse.next_string() {
            Ok(s) => {
                let upper = to_uppercase(s.as_str());
                proof {
                    assert(parse.rest() =~= rest.subrange(3, rest.len() as int));
                }
                let e = SetCmd::parse_expire(upper.as_str(), parse)?;
                proof {
                    assert(rest.subrange(3, rest.len() as int).drop_first() =~= skip(rest, 4));
                }
                Some(e)
            },
            Err(ParseError::EndOfStream) => None,
            Err(err) => {
                return Err(err);
            },
        };
        Ok(SetCmd { key, value, expire })
    }

    /// Reads the time to live after an expiry option whose name, upper-cased,
    /// is `option`: seconds after `EX`, milliseconds after `PX`.
    pub fn parse_expire(option: &str, parse: &mut Parse) -> (r: Result<u64, ParseError>)
        ensures
            r is Ok <==> expire_option(option@, old(parse).rest()) is Some,
            r matches Ok(ms) ==> ms == expire_option(option@, old(parse).rest())->Some_0
                && final(parse).rest() == old(parse).rest().drop_first(),
    {
        proof {
            reveal_strlit("EX");
            reveal_strlit("PX");
        }
        if text_eq(option, "EX") {
            let secs = parse.next_int()?;
            Ok(
                if secs > u64::MAX / 1000 {
                    u64::MAX
                } else {
                    secs * 1000
                },
            )
        } else if text_eq(option, "PX") {
            parse.next_int()
        } else {
            Err(ParseError::Other("protocol error; `SET` supports only the expiry options".to_owned()))
        }
    }

    /// Applies the SET to the store at `now`; the reply is `OK`, and the flag
    /// says whether the sweeper must be woken.
    pub fn apply(self, db: &mut State, now: u64) -> (r: (Frame, bool))
        requires
            old(db).wf(),
        ensures
            final(db).wf(),
            final(db)@ == set_model(old(db)@, self@.0, self@.1, self@.2, now),
            final(db).is_shut_down() == old(db).is_shut_down(),
            r.0@ == FrameModel::Simple("OK"@),
            r.1 == (self@.2 matches Some(d) && (old(db).expirations().len() == 0 || old(
                db,
            ).expirations()[0].0 > crate::db::deadline(now, d))),
    {
        let notify = db.set(self.key, self.value, self.expire, now);
        (Frame::Simple("OK".to_owned()), notify)
    }

    /// The request frame a client sends; a time to live is always written as `PX`.
    pub fn into_frame(self) -> (r: Frame)
        ensures
            r@ == FrameModel::Array(
                match self@.2 {
                    None => seq![bulk_text("set"@), bulk_text(self@.0), FrameModel::Bulk(self@.1)],
                    Some(ms) => seq![
                        bulk_text("set"@),
                        bulk_text(self@.0),
                        FrameModel::Bulk(self@.1),
                        bulk_text("px"@),
                        FrameModel::Integer(ms),
                    ],
                },
            ),
    {
        let mut frame = Frame::array();
        frame.push_bulk(str_bytes("set"));
        frame.push_bulk(string_bytes(&self.key));
        frame.push_bulk(self.value);
        if let Some(ms) = self.expire {
            frame.push_bulk(str_bytes("px"));
            frame.push_int(ms);
        }
        proof {
            assert(frame@->Array_0 =~= match self@.2 {
                None => seq![bulk_text("set"@), bulk_text(self@.0), FrameModel::Bulk(self@.1)],
                Some(ms) => seq![
                    bulk_text("set"@),
                    bulk_text(self@.0),
                    FrameModel::Bulk(self@.1),
                    bulk_text("px"@),
                    FrameModel::Integer(ms),
                ],
            });
        }
        frame
    }
}

} // verus!
