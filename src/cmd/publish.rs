use vstd::prelude::*;

use super::{bulk_text, skip};
use crate::frame::{Frame, FrameModel};
use crate::parse::{bytes_of, string_bytes, string_of, Parse, ParseError};
use crate::text::str_bytes;

verus! {

/// PUBLISH: sends a message to the subscribers of a channel.
#[derive(Debug)]
pub struct Publish {
    channel: String,
    message: Vec<u8>,
}

impl View for Publish {
    type V = (Seq<char>, Seq<u8>);

    closed spec fn view(&self) -> (Seq<char>, Seq<u8>) {
        (self.channel@, self.message@)
    }
}

/// A count of receivers as an integer reply, clamped to the largest `u64`.
pub open spec fn count_reply(n: usize) -> FrameModel {
    FrameModel::Integer(
        if n > u64::MAX {
            u64::MAX
        } else {
            n as u64
        },
    )
}

impl Publish {
    /// A PUBLISH of `message` on `channel`.
    pub fn new(channel: &str, message: Vec<u8>) -> (r: Publish)
        ensures
            r@ == (channel@, message@),
    {
        Publish { channel: channel.to_owned(), message }
    }

    /// The channel.
    pub fn channel(&self) -> (r: &str)
        ensures
            r@ == self@.0,
    {
        self.channel.as_str()
    }

    /// The message.
    pub fn message(&self) -> (r: &Vec<u8>)
        ensures
            r@ == self@.1,
    {
        &self.message
    }

    /// Reads the channel and the message.
    pub fn parse_frames(parse: &mut Parse) -> (r: Result<Publish, ParseError>)
        ensures
            r is Ok <==> old(parse).rest().len() >= 2 && string_of(old(parse).rest()[0]) is Some
                && bytes_of(old(parse).rest()[1]) is Some,
            r matches Ok(p) ==> p@ == (
                string_of(old(parse).rest()[0])->Some_0,
                bytes_of(old(parse).rest()[1])->Some_0,
            ) && final(parse).rest() == skip(old(parse).rest(), 2),
    {
        let ghost rest = old(parse).rest();
        let channel = parse.next_string()?;
        let message = parse.next_bytes()?;
        proof {
            assert(rest.drop_first().drop_first() =~= skip(rest, 2));
        }
        Ok(Publish { channel, message })
    }

    /// The reply to a PUBLISH that reached `num_subscribers` receivers.
    pub fn reply(num_subscribers: usize) -> (r: Frame)
        ensures
            r@ == count_reply(num_subscribers),
    {
        if num_subscribers as u128 > u64::MAX as u128 {
            Frame::Integer(u64::MAX)
        } else {
            Frame::Integer(num_subscribers as u64)
        }
    }

    /// The request frame a client sends.
    pub fn into_frame(self) -> (r: Frame)
        ensures
            r@ == FrameModel::Array(
                seq![bulk_text("publish"@), bulk_text(self@.0), FrameModel::Bulk(self@.1)],
            ),
    {
        let mut frame = Frame::array();
        frame.push_bulk(str_bytes("publish"));
        frame.push_bulk(string_bytes(&self.channel));
        frame.push_bulk(self.message);
        proof {
            assert(frame@->Array_0 =~= seq![
                bulk_text("publish"@),
                bulk_text(self@.0),
                FrameModel::Bulk(self@.1),
            ]);
        }
        frame
    }
}

} // verus!
