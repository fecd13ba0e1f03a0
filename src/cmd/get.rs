use vstd::prelude::*;

use super::{bulk_text, skip};
use crate::db::State;
use crate::frame::{Frame, FrameModel};
use crate::parse::{string_of, Parse, ParseError};
use crate::parse::string_bytes;
use crate::text::str_bytes;

verus! {

/// GET: the value stored under a key.
#[derive(Debug)]
pub struct Get {
    key: String,
}

impl View for Get {
    type V = Seq<char>;

    closed spec fn view(&self) -> Seq<char> {
        self.key@
    }
}

impl Get {
    /// A GET of `key`.
    pub fn new(key: &str) -> (r: Get)
        ensures
            r@ == key@,
    {
        Get { key: key.to_owned() }
    }

    /// The key.
    pub fn key(&self) -> (r: &str)
        ensures
            r@ == self@,
    {
        self.key.as_str()
    }

    /// Reads the key, the only argument.
    pub fn parse_frames(parse: &mut Parse) -> (r: Result<Get, ParseError>)
        ensures
            final(parse).rest() == skip(old(parse).rest(), 1),
            r is Ok <==> old(parse).rest().len() >= 1 && string_of(old(parse).rest()[0]) is Some,
            r matches Ok(g) ==> g@ == string_of(old(parse).rest()[0])->Some_0,
    {
        proof {
            if old(parse).rest().len() >= 1 {
                assert(old(parse).rest().drop_first() =~= skip(old(parse).rest(), 1));
            }
        }
        let key = parse.next_string()?;
        Ok(Get { key })
    }

    /// The reply: the stored value as a bulk string, or null.
    pub fn apply(&self, db: &State) -> (r: Frame)
        requires
            db.wf(),
        ensures
            r@ == if db@.contains_key(self@) {
                FrameModel::Bulk(db@[self@].0)
            } else {
                FrameModel::Null
            },
    {
        match db.get(self.key.as_str()) {
            Some(value) => Frame::Bulk(value),
            None => Frame::Null,
        }
    }

    /// The request frame a client sends.
    pub fn into_frame(self) -> (r: Frame)
        ensures
            r@ == FrameModel::Array(seq![bulk_text("get"@), bulk_text(self@)]),
    {
        let mut frame = Frame::array();
        frame.push_bulk(str_bytes("get"));
        frame.push_bulk(string_bytes(&self.key));
        proof {
            assert(frame@->Array_0 =~= seq![bulk_text("get"@), bulk_text(self@)]);
        }
        frame
    }
}

} // verus!
