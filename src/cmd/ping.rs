use vstd::prelude::*;

use super::{bulk_text, skip};
use crate::frame::{Frame, FrameModel};
use crate::parse::{bytes_of, Parse, ParseError};
use crate::text::str_bytes;

verus! {

/// PING: answered with PONG, or with its message.
#[derive(Debug)]
pub struct Ping {
    msg: Option<Vec<u8>>,
}

impl View for Ping {
    type V = Option<Seq<u8>>;

    closed spec fn view(&self) -> Option<Seq<u8>> {
        match self.msg {
            Some(m) => Some(m@),
            None => None,
        }
    }
}

impl Ping {
    /// A PING with an optional message.
    pub fn new(msg: Option<Vec<u8>>) -> (r: Ping)
        ensures
            r@ == match msg {
                Some(m) => Some(m@),
                None => None::<Seq<u8>>,
            },
    {
        Ping { msg }
    }

    /// Reads the optional message.
    pub fn parse_frames(parse: &mut Parse) -> (r: Result<Ping, ParseError>)
        ensures
            final(parse).rest() == skip(old(parse).rest(), 1),
            r is Ok <==> old(parse).rest().len() == 0 || bytes_of(old(parse).rest()[0]) is Some,
            r matches Ok(p) ==> p@ == if old(parse).rest().len() == 0 {
                None
            } else {
                bytes_of(old(parse).rest()[0])
            },
    {
        proof {
            if old(parse).rest().len() >= 1 {
                assert(old(parse).rest().drop_first() =~= skip(old(parse).rest(), 1));
            } else {
                assert(old(parse).rest() =~= skip(old(parse).rest(), 1));
            }
        }
        match parse.next_bytes() {
            Ok(msg) => Ok(Ping { msg: Some(msg) }),
            Err(ParseError::EndOfStream) => Ok(Ping { msg: None }),
            Err(e) => Err(e),
        }
    }

    /// The reply: `PONG`, or the message as a bulk string.
    pub fn apply(self) -> (r: Frame)
        ensures
            r@ == match self@ {
                None => FrameModel::Simple("PONG"@),
                Some(m) => FrameModel::Bulk(m),
            },
    {
        match self.msg {
            None => Frame::Simple("PONG".to_owned()),
            Some(msg) => Frame::Bulk(msg),
        }
    }

    /// The request frame a client sends.
    pub fn into_frame(self) -> (r: Frame)
        ensures
            r@ == FrameModel::Array(
                match self@ {
                    None => seq![bulk_text("ping"@)],
                    Some(m) => seq![bulk_text("ping"@), FrameModel::Bulk(m)],
                },
            ),
    {
        let mut frame = Frame::array();
        frame.push_bulk(str_bytes("ping"));
        if let Some(msg) = self.msg {
            frame.push_bulk(msg);
        }
        proof {
            assert(frame@->Array_0 =~= match self@ {
                None => seq![bulk_text("ping"@)],
                Some(m) => seq![bulk_text("ping"@), FrameModel::Bulk(m)],
            });
        }
        frame
    }
}

} // verus!
