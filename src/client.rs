//! The client's reading of server replies: which frames answer each request,
//! and the bookkeeping of a subscriber's channels.
use vstd::prelude::*;
use vstd::utf8::*;

use crate::cmd::subscribe::texts;
use crate::frame::{scalar_model, string_from_utf8, Frame, FrameModel};
use crate::parse::{bytes_of, string_bytes, string_of};
use crate::text::{bytes_eq, text_eq};

verus! {

/// Why a request failed.
#[derive(Debug, Clone, PartialEq, Eq)]
pub enum ClientError {
    /// The server closed the connection without replying.
    ConnectionReset,
    /// The reply was not what the request calls for.
    Protocol(String),
    /// The server replied with an error.
    Server(String),
}

/// A message received on a subscribed channel.
#[derive(Debug, Clone, PartialEq, Eq)]
pub struct Message {
    pub channel: String,
    pub content: Vec<u8>,
}

/// Whether a frame is a simple or bulk string holding the text `t`.
pub open spec fn text_is(m: FrameModel, t: Seq<char>) -> bool {
    match m {
        FrameModel::Simple(s) => s == t,
        FrameModel::Bulk(b) => b == encode_utf8(t),
        _ => false,
    }
}

/// Whether `frame` is a simple or bulk string holding `t`.
pub fn frame_is_text(frame: &Frame, t: &str) -> (r: bool)
    ensures
        r == text_is(scalar_model(*frame), t@),
{
    match frame {
        Frame::Simple(s) => text_eq(s.as_str(), t),
        Frame::Bulk(b) => {
            let eq = bytes_eq(b.as_slice(), t.as_bytes());
            eq
        },
        _ => false,
    }
}

fn unexpected() -> (r: ClientError)
    ensures
        r is Protocol,
{
    ClientError::Protocol("protocol error; unexpected frame".to_owned())
}

/// The reply to a request: `None`, the connection closed, is an error, and so
/// is an error frame.
pub fn read_response(response: Option<Frame>) -> (r: Result<Frame, ClientError>)
    ensures
        response is None ==> r matches Err(ClientError::ConnectionReset),
        response matches Some(f) ==> match f@ {
            FrameModel::Error(msg) => r matches Err(ClientError::Server(m)) && m@ == msg,
            _ => r matches Ok(g) && g@ == f@,
        },
{
    match response {
        Some(Frame::Error(msg)) => Err(ClientError::Server(msg)),
        Some(frame) => Ok(frame),
        None => Err(ClientError::ConnectionReset),
    }
}

/// The reply to PING: the bytes of a simple or bulk string.
pub fn ping_response(frame: Frame) -> (r: Result<Vec<u8>, ClientError>)
    ensures
        match bytes_of(frame@) {
            Some(b) => r matches Ok(v) && v@ == b,
            None => r matches Err(ClientError::Protocol(_)),
        },
{
    match frame {
        Frame::Simple(value) => Ok(string_bytes(&value)),
        Frame::Bulk(value) => Ok(value),
        _ => Err(unexpected()),
    }
}

/// The reply to GET: a value, or none for null.
pub fn get_response(frame: Frame) -> (r: Result<Option<Vec<u8>>, ClientError>)
    ensures
        frame@ is Null ==> r matches Ok(None),
        !(frame@ is Null) ==> match bytes_of(frame@) {
            Some(b) => r matches Ok(Some(v)) && v@ == b,
            None => r matches Err(ClientError::Protocol(_)),
        },
{
    match frame {
        Frame::Simple(value) => Ok(Some(string_bytes(&value))),
        Frame::Bulk(value) => Ok(Some(value)),
        Frame::Null => Ok(None),
        _ => Err(unexpected()),
    }
}

/// The reply to SET: exactly `OK`.
pub fn set_response(frame: Frame) -> (r: Result<(), ClientError>)
    ensures
        r is Ok <==> frame@ == FrameModel::Simple("OK"@),
        r matches Err(e) ==> e is Protocol,
{
    match frame {
        Frame::Simple(response) => {
            if text_eq(response.as_str(), "OK") {
                Ok(())
            } else {
                Err(unexpected())
            }
        },
        _ => Err(unexpected()),
    }
}

/// The reply to PUBLISH: the number of subscribers.
pub fn publish_response(frame: Frame) -> (r: Result<u64, ClientError>)
    ensures
        match frame@ {
            FrameModel::Integer(n) => r == Ok::<u64, ClientError>(n),
            _ => r matches Err(ClientError::Protocol(_)),
        },
{
    match frame {
        Frame::Integer(n) => Ok(n),
        _ => Err(unexpected()),
    }
}

/// Whether a reply acknowledges a subscription to `channel`: an array whose
/// first element is `subscribe` and whose second is the channel.
pub open spec fn is_subscribe_ack(m: FrameModel, channel: Seq<char>) -> bool {
    match m {
        FrameModel::Array(items) => items.len() >= 2 && text_is(items[0], "subscribe"@) && text_is(
            items[1],
            channel,
        ),
        _ => false,
    }
}

/// Checks the acknowledgement of a subscription to `channel`.
pub fn check_subscribe_ack(frame: &Frame, channel: &str) -> (r: Result<(), ClientError>)
    ensures
        r is Ok <==> is_subscribe_ack(frame@, channel@),
        r matches Err(e) ==> e is Protocol,
{
    match frame {
        Frame::Array(items) => {
            if items.len() >= 2 && frame_is_text(&items[0], "subscribe") && frame_is_text(
                &items[1],
                channel,
            ) {
                Ok(())
            } else {
                Err(unexpected())
            }
        },
        _ => Err(unexpected()),
    }
}

/// How many acknowledgements an UNSUBSCRIBE of `requested` channels brings
/// while `subscribed` channels are held: one per channel, all of them when none is named.
pub fn expected_unsubscribe_acks(requested: usize, subscribed: usize) -> (r: usize)
    ensures
        r == if requested == 0 {
            subscribed
        } else {
            requested
        },
{
    if requested == 0 {
        subscribed
    } else {
        requested
    }
}

/// The channels of `s` whose name is not the text of `m`.
pub open spec fn without(s: Seq<Seq<char>>, m: FrameModel) -> Seq<Seq<char>>
    decreases s.len(),
{
    if s.len() == 0 {
        s
    } else if text_is(m, s.last()) {
        without(s.drop_last(), m)
    } else {
        without(s.drop_last(), m).push(s.last())
    }
}

/// Applies an unsubscribe acknowledgement to the list of subscribed channels:
/// it must be an array whose first element is `unsubscribe` and whose second
/// names exactly one of the channels, which is then dropped.
pub fn apply_unsubscribe_ack(subscribed: &mut Vec<String>, frame: &Frame) -> (r: Result<(), ClientError>)
    ensures
        r is Ok <==> (match frame@ {
            FrameModel::Array(items) => items.len() >= 2 && text_is(items[0], "unsubscribe"@)
                && texts(old(subscribed)@).len() > 0 && without(texts(old(subscribed)@), items[1]).len()
                == texts(old(subscribed)@).len() - 1,
            _ => false,
        }),
        r is Ok ==> texts(final(subscribed)@) == without(texts(old(subscribed)@), frame@->Array_0[1]),
        r matches Err(e) ==> e is Protocol,
{
    let items = match frame {
        Frame::Array(items) => items,
        _ => {
            return Err(unexpected());
        },
    };
    if items.len() < 2 || !frame_is_text(&items[0], "unsubscribe") {
        return Err(unexpected());
    }
    let len = subscribed.len();
    if len == 0 {
        return Err(unexpected());
    }
    let channel = &items[1];
    let ghost m = scalar_model(*channel);
    let ghost all = texts(subscribed@);
    proof {
        assert(frame@->Array_0[1] == m);
    }
    let mut kept: Vec<String> = Vec::new();
    let mut k: usize = 0;
    while k < subscribed.len()
        invariant
            k <= subscribed@.len(),
            all == texts(subscribed@),
            m == scalar_model(*channel),
            texts(kept@) == without(all.subrange(0, k as int), m),
        decreases subscribed.len() - k,
    {
        let ghost before = kept@;
        let c = &subscribed[k];
        let matches = match channel {
            Frame::Simple(s) => text_eq(s.as_str(), c.as_str()),
            Frame::Bulk(b) => {
                let cb = string_bytes(c);
                bytes_eq(b.as_slice(), cb.as_slice())
            },
            _ => false,
        };
        proof {
            encode_utf8_decode_utf8(c@);
            assert(all[k as int] == c@);
            assert(matches == text_is(m, all[k as int]));
        }
        if !matches {
            kept.push(c.clone());
        }
        k += 1;
        proof {
            let p = all.subrange(0, k as int);
            assert(p.drop_last() =~= all.subrange(0, k - 1));
            if !matches {
                assert(texts(kept@) =~= texts(before).push(all[k - 1]));
            } else {
                assert(kept@ == before);
            }
        }
    }
    proof {
        assert(all.subrange(0, all.len() as int) =~= all);
    }
    *subscribed = kept;
    if subscribed.len() != len - 1 {
        return Err(unexpected());
    }
    Ok(())
}

/// A message relayed on a subscribed channel: an array of `message`, the
/// channel name as text, and the content.
pub open spec fn message_of(m: FrameModel) -> Option<(Seq<char>, Seq<u8>)> {
    match m {
        FrameModel::Array(items) => if items.len() == 3 && text_is(items[0], "message"@) && string_of(
            items[1],
        ) is Some && bytes_of(items[2]) is Some {
            Some((string_of(items[1])->Some_0, bytes_of(items[2])->Some_0))
        } else {
            None
        },
        _ => None,
    }
}

fn text_of(frame: &Frame) -> (r: Option<String>)
    ensures
        match string_of(scalar_model(*frame)) {
            Some(t) => r matches Some(s) && s@ == t,
            None => r is None,
        },
{
    match frame {
        Frame::Simple(s) => Some(s.clone()),
        Frame::Bulk(b) => {
            let mut copy: Vec<u8> = Vec::new();
            let mut k: usize = 0;
            while k < b.len()
                invariant
                    k <= b@.len(),
                    copy@ == b@.subrange(0, k as int),
                decreases b.len() - k,
            {
                copy.push(b[k]);
                k += 1;
                assert(copy@ =~= b@.subrange(0, k as int));
            }
            assert(b@.subrange(0, b@.len() as int) =~= b@);
            string_from_utf8(copy)
        },
        _ => None,
    }
}

fn bytes_of_frame(frame: &Frame) -> (r: Option<Vec<u8>>)
    ensures
        match bytes_of(scalar_model(*frame)) {
            Some(b) => r matches Some(v) && v@ == b,
            None => r is None,
        },
{
    match frame {
        Frame::Simple(s) => Some(string_bytes(s)),
        Frame::Bulk(b) => Some(crate::frame::copy_range(b.as_slice(), 0, b.len())),
        _ => None,
    }
}

/// Reads a message relayed on a subscribed channel.
pub fn message_from_frame(frame: &Frame) -> (r: Result<Message, ClientError>)
    ensures
        match message_of(frame@) {
            Some((c, b)) => r matches Ok(msg) && msg.channel@ == c && msg.content@ == b,
            None => r matches Err(ClientError::Protocol(_)),
        },
{
    if let Frame::Array(items) = frame {
        if items.len() == 3 && frame_is_text(&items[0], "message") {
            if let Some(channel) = text_of(&items[1]) {
                if let Some(content) = bytes_of_frame(&items[2]) {
                    return Ok(Message { channel, content });
                }
            }
        }
    }
    Err(unexpected())
}

} // verus!
