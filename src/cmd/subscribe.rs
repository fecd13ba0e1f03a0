use vstd::prelude::*;

use super::{all_strings, bulk_text, strings_of, Command, CommandModel, Unknown};
use crate::frame::{Frame, FrameModel};
use crate::parse::{string_bytes, string_of, Parse, ParseError};
use crate::text::{str_bytes, text_eq};

verus! {

/// SUBSCRIBE: listens on one or more channels.
#[derive(Debug)]
pub struct Subscribe {
    channels: Vec<String>,
}

/// UNSUBSCRIBE: stops listening on the given channels, or on all of them when none is given.
#[derive(Clone, Debug)]
pub struct Unsubscribe {
    channels: Vec<String>,
}

/// The characters of each string.
pub open spec fn texts(v: Seq<String>) -> Seq<Seq<char>> {
    v.map_values(|s: String| s@)
}

impl View for Subscribe {
    type V = Seq<Seq<char>>;

    closed spec fn view(&self) -> Seq<Seq<char>> {
        texts(self.channels@)
    }
}

impl View for Unsubscribe {
    type V = Seq<Seq<char>>;

    closed spec fn view(&self) -> Seq<Seq<char>> {
        texts(self.channels@)
    }
}

/// Reads every remaining element as text, after those already in `channels`.
fn read_strings(parse: &mut Parse, channels: &mut Vec<String>) -> (r: Result<(), ParseError>)
    ensures
        r is Ok <==> all_strings(old(parse).rest()),
        r is Ok ==> texts(final(channels)@) == texts(old(channels)@) + strings_of(old(parse).rest())
            && final(parse).rest().len() == 0,
        r matches Err(e) ==> e is Other,
{
    let ghost rest = old(parse).rest();
    let ghost start = texts(channels@);
    let ghost mut n: int = 0;
    proof {
        assert(rest.subrange(0, 0) =~= Seq::<FrameModel>::empty());
        assert(strings_of(rest.subrange(0, 0)) =~= Seq::<Seq<char>>::empty());
        assert(texts(channels@) =~= start + strings_of(rest.subrange(0, 0)));
        assert(parse.rest() =~= rest.subrange(0, rest.len() as int));
    }
    loop
        invariant
            rest == old(parse).rest(),
            start == texts(old(channels)@),
            0 <= n <= rest.len(),
            parse.rest() == rest.subrange(n as int, rest.len() as int),
            all_strings(rest.subrange(0, n as int)),
            texts(channels@) == start + strings_of(rest.subrange(0, n as int)),
        ensures
            n == rest.len(),
            parse.rest().len() == 0,
            all_strings(rest),
            texts(channels@) == start + strings_of(rest),
        decreases rest.len() - n,
    {
        let ghost before = channels@;
        let ghost pr = parse.rest();
        match parse.next_string() {
            Ok(s) => {
                channels.push(s);
                proof {
                    let p = rest.subrange(0, n + 1);
                    assert(texts(channels@) =~= texts(before).push(s@));
                    assert(strings_of(p) =~= strings_of(rest.subrange(0, n as int)).push(
                        string_of(rest[n as int])->Some_0,
                    ));
                    assert(p.drop_last() =~= rest.subrange(0, n as int));
                    assert(rest[n as int] == rest.subrange(n as int, rest.len() as int)[0]);
                    assert(all_strings(p)) by {
                        assert forall|i: int| 0 <= i < p.len() implies (#[trigger] string_of(p[i])) is Some by {
                            if i < n {
                                assert(p[i] == rest.subrange(0, n as int)[i]);
                            }
                        }
                    }
                    assert(texts(channels@) =~= start + strings_of(p));
                    assert(rest.subrange(n as int, rest.len() as int).drop_first() =~= rest.subrange(
                        n + 1,
                        rest.len() as int,
                    ));
                    n = n + 1;
                }
            },
            Err(ParseError::EndOfStream) => {
                proof {
                    assert(rest.subrange(0, n as int) =~= rest);
                }
                break;
            },
            Err(err) => {
                proof {
                    assert(err is Other);
                    assert(pr.len() > 0);
                    assert(rest[n as int] == pr[0]);
                    assert(string_of(rest[n as int]) is None);
                    assert(!all_strings(rest));
                }
                return Err(err);
            },
        }
    }
    Ok(())
}

impl Subscribe {
    /// A SUBSCRIBE to `channels`.
    pub fn new(channels: Vec<String>) -> (r: Subscribe)
        ensures
            r@ == texts(channels@),
    {
        Subscribe { channels }
    }

    /// The channels.
    pub fn channels(&self) -> (r: &Vec<String>)
        ensures
            texts(r@) == self@,
    {
        &self.channels
    }

    /// Takes the channels out.
    pub fn into_channels(self) -> (r: Vec<String>)
        ensures
            texts(r@) == self@,
    {
        self.channels
    }

    /// Reads one or more channel names, up to the last element.
    pub fn parse_frames(parse: &mut Parse) -> (r: Result<Subscribe, ParseError>)
        ensures
            r is Ok <==> old(parse).rest().len() >= 1 && all_strings(old(parse).rest()),
            r matches Ok(s) ==> s@ == strings_of(old(parse).rest()) && final(parse).rest().len() == 0,
    {
        let ghost rest = old(parse).rest();
        let first = parse.next_string()?;
        let mut channels: Vec<String> = Vec::new();
        channels.push(first);
        let ghost one = texts(channels@);
        let res = read_strings(parse, &mut channels);
        proof {
            if rest.len() >= 1 {
                assert(rest =~= seq![rest[0]] + rest.drop_first());
                if all_strings(rest.drop_first()) && string_of(rest[0]) is Some {
                    assert(all_strings(rest)) by {
                        assert forall|i: int| 0 <= i < rest.len() implies (#[trigger] string_of(rest[i])) is Some by {
                            if i > 0 {
                                assert(rest[i] == rest.drop_first()[i - 1]);
                            }
                        }
                    }
                }
                if all_strings(rest) {
                    assert(string_of(rest[0]) is Some);
                    assert forall|i: int| 0 <= i < rest.drop_first().len() implies (#[trigger] string_of(
                        rest.drop_first()[i],
                    )) is Some by {
                        assert(rest.drop_first()[i] == rest[i + 1]);
                    }
                }
                assert(one =~= seq![string_of(rest[0])->Some_0]);
                assert(strings_of(rest) =~= one + strings_of(rest.drop_first()));
            }
        }
        match res {
            Ok(()) => Ok(Subscribe { channels }),
            Err(e) => Err(e),
        }
    }

    /// The request frame a client sends.
    pub fn into_frame(self) -> (r: Frame)
        ensures
            r@ == FrameModel::Array(seq![bulk_text("subscribe"@)] + self@.map_values(|c: Seq<char>| bulk_text(c))),
    {
        let mut frame = Frame::array();
        frame.push_bulk(str_bytes("subscribe"));
        push_names(&mut frame, &self.channels);
        frame
    }
}

/// Appends each name to an array frame as a bulk string.
fn push_names(frame: &mut Frame, names: &Vec<String>)
    requires
        old(frame)@.is_array(),
    ensures
        final(frame)@ == FrameModel::Array(
            old(frame)@->Array_0 + texts(names@).map_values(|c: Seq<char>| bulk_text(c)),
        ),
{
    let ghost start = frame@->Array_0;
    let mut k: usize = 0;
    proof {
        assert(frame@ == FrameModel::Array(start + texts(names@.subrange(0, 0)).map_values(|c: Seq<char>| bulk_text(c)))) by {
            assert(start + texts(names@.subrange(0, 0)).map_values(|c: Seq<char>| bulk_text(c)) =~= start);
        }
    }
    while k < names.len()
        invariant
            k <= names@.len(),
            frame@ == FrameModel::Array(start + texts(names@.subrange(0, k as int)).map_values(|c: Seq<char>| bulk_text(c))),
        decreases names.len() - k,
    {
        frame.push_bulk(string_bytes(&names[k]));
        k += 1;
        proof {
            assert(start + texts(names@.subrange(0, k as int)).map_values(|c: Seq<char>| bulk_text(c)) =~= (
            start + texts(names@.subrange(0, k - 1)).map_values(|c: Seq<char>| bulk_text(c))).push(
                bulk_text(names@[k - 1]@),
            ));
        }
    }
    proof {
        assert(names@.subrange(0, names@.len() as int) =~= names@);
    }
}

impl Unsubscribe {
    /// An UNSUBSCRIBE from `channels`; none means all.
    pub fn new(channels: &[String]) -> (r: Unsubscribe)
        ensures
            r@ == texts(channels@),
    {
        let mut v: Vec<String> = Vec::new();
        let mut k: usize = 0;
        while k < channels.len()
            invariant
                k <= channels@.len(),
                texts(v@) == texts(channels@.subrange(0, k as int)),
            decreases channels.len() - k,
        {
            let ghost before = v@;
            v.push(channels[k].clone());
            k += 1;
            proof {
                assert(texts(v@) =~= texts(before).push(channels@[k - 1]@));
                assert(texts(channels@.subrange(0, k as int)) =~= texts(channels@.subrange(0, k - 1)).push(
                    channels@[k - 1]@,
                ));
            }
        }
        proof {
            assert(channels@.subrange(0, channels@.len() as int) =~= channels@);
        }
        Unsubscribe { channels: v }
    }

    /// The channels.
    pub fn channels(&self) -> (r: &Vec<String>)
        ensures
            texts(r@) == self@,
    {
        &self.channels
    }

    /// Reads any number of channel names, up to the last element.
    pub fn parse_frames(parse: &mut Parse) -> (r: Result<Unsubscribe, ParseError>)
        ensures
            r is Ok <==> all_strings(old(parse).rest()),
            r matches Ok(s) ==> s@ == strings_of(old(parse).rest()) && final(parse).rest().len() == 0,
            r matches Err(e) ==> e is Other,
    {
        let mut channels: Vec<String> = Vec::new();
        let ghost none = texts(channels@);
        proof {
            assert(none =~= Seq::<Seq<char>>::empty());
        }
        match read_strings(parse, &mut channels) {
            Ok(()) => {
                proof {
                    assert(texts(channels@) =~= strings_of(old(parse).rest()));
                }
                Ok(Unsubscribe { channels })
            },
            Err(e) => Err(e),
        }
    }

    /// The request frame a client sends.
    pub fn into_frame(self) -> (r: Frame)
        ensures
            r@ == FrameModel::Array(seq![bulk_text("unsubscribe"@)] + self@.map_values(|c: Seq<char>| bulk_text(c))),
    {
        let mut frame = Frame::array();
        frame.push_bulk(str_bytes("unsubscribe"));
        push_names(&mut frame, &self.channels);
        frame
    }
}

/// A subscribe acknowledgement: the channel and how many channels are now subscribed.
pub open spec fn subscribe_ack(channel: Seq<char>, count: usize) -> FrameModel {
    FrameModel::Array(
        seq![FrameModel::Simple("subscribe"@), bulk_text(channel), FrameModel::Integer(count as u64)],
    )
}

/// An unsubscribe acknowledgement: the channel and how many channels are still subscribed.
pub open spec fn unsubscribe_ack(channel: Seq<char>, count: usize) -> FrameModel {
    FrameModel::Array(
        seq![FrameModel::Simple("unsubscribe"@), bulk_text(channel), FrameModel::Integer(count as u64)],
    )
}

/// A message published on a channel, as relayed to a subscriber.
pub open spec fn message_frame(channel: Seq<char>, msg: Seq<u8>) -> FrameModel {
    FrameModel::Array(seq![FrameModel::Simple("message"@), bulk_text(channel), FrameModel::Bulk(msg)])
}

fn make_ack(kind: &str, channel: &str, count: usize) -> (r: Frame)
    ensures
        r@ == FrameModel::Array(
            seq![FrameModel::Simple(kind@), bulk_text(channel@), FrameModel::Integer(count as u64)],
        ),
{
    let mut response = Frame::array();
    response.push_simple(kind.to_owned());
    response.push_bulk(str_bytes(channel));
    response.push_int(count as u64);
    proof {
        assert(response@->Array_0 =~= seq![
            FrameModel::Simple(kind@),
            bulk_text(channel@),
            FrameModel::Integer(count as u64),
        ]);
    }
    response
}

/// The acknowledgement of a subscription to `channel_name`.
pub fn make_subscribe_frame(channel_name: &str, num_subs: usize) -> (r: Frame)
    ensures
        r@ == subscribe_ack(channel_name@, num_subs),
{
    make_ack("subscribe", channel_name, num_subs)
}

/// The acknowledgement of an unsubscription from `channel_name`.
pub fn make_unsubscribe_frame(channel_name: &str, num_subs: usize) -> (r: Frame)
    ensures
        r@ == unsubscribe_ack(channel_name@, num_subs),
{
    make_ack("unsubscribe", channel_name, num_subs)
}

/// The frame that relays `msg`, published on `channel_name`, to a subscriber.
pub fn make_message_frame(channel_name: &str, msg: Vec<u8>) -> (r: Frame)
    ensures
        r@ == message_frame(channel_name@, msg@),
{
    let mut response = Frame::array();
    response.push_simple("message".to_owned());
    response.push_bulk(str_bytes(channel_name));
    response.push_bulk(msg);
    proof {
        assert(response@->Array_0 =~= seq![
            FrameModel::Simple("message"@),
            bulk_text(channel_name@),
            FrameModel::Bulk(msg@),
        ]);
    }
    response
}

/// The channels a connection in subscribe mode listens on, each once.
pub struct Subscriptions {
    channels: Vec<String>,
}

impl View for Subscriptions {
    type V = Seq<Seq<char>>;

    closed spec fn view(&self) -> Seq<Seq<char>> {
        texts(self.channels@)
    }
}

impl Subscriptions {
    /// No channel is listed twice.
    pub open spec fn wf(&self) -> bool {
        self@.no_duplicates()
    }

    /// No subscription.
    pub fn new() -> (r: Subscriptions)
        ensures
            r.wf(),
            r@ == Seq::<Seq<char>>::empty(),
    {
        let r = Subscriptions { channels: Vec::new() };
        assert(r@ =~= Seq::<Seq<char>>::empty());
        r
    }

    /// How many channels are subscribed.
    pub fn len(&self) -> (r: usize)
        ensures
            r == self@.len(),
    {
        self.channels.len()
    }

    fn index_of(&self, name: &str) -> (r: Option<usize>)
        ensures
            r matches Some(i) ==> i < self@.len() && self@[i as int] == name@,
            r is None ==> !self@.contains(name@),
    {
        let mut i: usize = 0;
        while i < self.channels.len()
            invariant
                i <= self.channels@.len(),
                forall|j: int| 0 <= j < i ==> self@[j] != name@,
            decreases self.channels.len() - i,
        {
            if text_eq(self.channels[i].as_str(), name) {
                return Some(i);
            }
            i += 1;
        }
        None
    }

    /// Whether `name` is subscribed.
    pub fn contains(&self, name: &str) -> (r: bool)
        ensures
            r == self@.contains(name@),
    {
        self.index_of(name).is_some()
    }

    /// The subscribed channels, in order.
    pub fn names(&self) -> (r: Vec<String>)
        ensures
            texts(r@) == self@,
    {
        let mut v: Vec<String> = Vec::new();
        let mut k: usize = 0;
        while k < self.channels.len()
            invariant
                k <= self.channels@.len(),
                texts(v@) == self@.subrange(0, k as int),
            decreases self.channels.len() - k,
        {
            let ghost before = v@;
            v.push(self.channels[k].clone());
            k += 1;
            proof {
                assert(texts(v@) =~= texts(before).push(self.channels@[k - 1]@));
                assert(self@.subrange(0, k as int) =~= self@.subrange(0, k - 1).push(self@[k - 1]));
            }
        }
        proof {
            assert(self@.subrange(0, self@.len() as int) =~= self@);
        }
        v
    }

    /// Subscribes to `channel`, once however often it is asked for, and returns
    /// the acknowledgement, which counts the channels now subscribed.
    pub fn add(&mut self, channel: String) -> (r: Frame)
        requires
            old(self).wf(),
        ensures
            final(self).wf(),
            final(self)@ == add_model(old(self)@, channel@),
            r@ == subscribe_ack(channel@, final(self)@.len() as usize),
    {
        if self.index_of(channel.as_str()).is_none() {
            let ghost before = self@;
            self.channels.push(channel.clone());
            proof {
                assert(self@ =~= before.push(channel@));
                assert(self@.no_duplicates()) by {
                    assert forall|a: int, b: int| 0 <= a < self@.len() && 0 <= b < self@.len() && a != b implies self@[a] != self@[b] by {
                        if a < before.len() && b < before.len() {
                            assert(self@[a] == before[a] && self@[b] == before[b]);
                        } else if a < before.len() {
                            assert(self@[a] == before[a]);
                        } else {
                            assert(self@[b] == before[b]);
                        }
                    }
                }
            }
        }
        make_subscribe_frame(channel.as_str(), self.channels.len())
    }

    /// Unsubscribes from `channel`, if subscribed, and returns the
    /// acknowledgement, which counts the channels still subscribed.
    pub fn remove(&mut self, channel: &str) -> (r: Frame)
        requires
            old(self).wf(),
        ensures
            final(self).wf(),
            old(self)@.contains(channel@) ==> exists|i: int|
                0 <= i < old(self)@.len() && old(self)@[i] == channel@ && final(self)@ == old(self)@.remove(i),
            !old(self)@.contains(channel@) ==> final(self)@ == old(self)@,
            !final(self)@.contains(channel@),
            forall|c: Seq<char>| #[trigger] final(self)@.contains(c) <==> old(self)@.contains(c) && c != channel@,
            r@ == unsubscribe_ack(channel@, final(self)@.len() as usize),
    {
        if let Some(i) = self.index_of(channel) {
            let ghost before = self@;
            self.channels.remove(i);
            proof {
                assert(self@ =~= before.remove(i as int));
                assert forall|a: int, b: int| 0 <= a < self@.len() && 0 <= b < self@.len() && a != b implies self@[a] != self@[b] by {
                    let a2 = if a < i { a } else { a + 1 };
                    let b2 = if b < i { b } else { b + 1 };
                    assert(self@[a] == before[a2] && self@[b] == before[b2]);
                }
                assert forall|c: Seq<char>| #[trigger] self@.contains(c) implies before.contains(c) by {
                    let j = choose|j: int| 0 <= j < self@.len() && self@[j] == c;
                    let j2 = if j < i { j } else { j + 1 };
                    assert(self@[j] == before[j2]);
                }
                assert forall|c: Seq<char>| before.contains(c) && c != channel@ implies #[trigger] self@.contains(c) by {
                    let j = choose|j: int| 0 <= j < before.len() && before[j] == c;
                    assert(j != i);
                    let j2 = if j < i { j } else { j - 1 };
                    assert(self@[j2] == before[j]);
                }
            }
        }
        make_unsubscribe_frame(channel, self.channels.len())
    }

    /// Applies an UNSUBSCRIBE: from the channels it names, or from every
    /// subscribed channel when it names none. Returns each channel with its
    /// acknowledgement, in order; each acknowledgement counts the channels left
    /// once it and those before it are dropped.
    pub fn unsubscribe(&mut self, cmd: Unsubscribe) -> (r: Vec<(String, Frame)>)
        requires
            old(self).wf(),
        ensures
            final(self).wf(),
            final(self)@.to_set() == left_after(old(self)@, unsubscribe_targets(old(self)@, cmd@)),
            r@.len() == unsubscribe_targets(old(self)@, cmd@).len(),
            forall|i: int|
                0 <= i < r@.len() ==> (#[trigger] r@[i]).0@ == unsubscribe_targets(old(self)@, cmd@)[i]
                    && r@[i].1@ == unsubscribe_ack(
                    r@[i].0@,
                    left_after(old(self)@, unsubscribe_targets(old(self)@, cmd@).subrange(0, i + 1)).len() as usize,
                ),
    {
        let ghost old_names = self@;
        let names = if cmd.channels.len() == 0 {
            self.names()
        } else {
            cmd.channels
        };
        let ghost requested = texts(names@);
        proof {
            assert(requested == unsubscribe_targets(old_names, cmd@));
            assert(requested.subrange(0, 0).to_set() =~= Set::<Seq<char>>::empty());
            assert(self@.to_set() =~= left_after(old_names, requested.subrange(0, 0)));
        }
        let mut acks: Vec<(String, Frame)> = Vec::new();
        let mut k: usize = 0;
        while k < names.len()
            invariant
                self.wf(),
                k <= names@.len(),
                acks@.len() == k,
                requested == texts(names@),
                self@.to_set() == left_after(old_names, requested.subrange(0, k as int)),
                forall|i: int|
                    0 <= i < k ==> (#[trigger] acks@[i]).0@ == requested[i] && acks@[i].1@ == unsubscribe_ack(
                        requested[i],
                        left_after(old_names, requested.subrange(0, i + 1)).len() as usize,
                    ),
            decreases names.len() - k,
        {
            let ghost before = self@;
            let frame = self.remove(names[k].as_str());
            proof {
                let c0 = requested[k as int];
                assert(c0 == names@[k as int]@);
                let p0 = requested.subrange(0, k as int);
                let p1 = requested.subrange(0, k + 1);
                assert forall|x: Seq<char>| #[trigger] p1.contains(x) <==> (p0.contains(x) || x == c0) by {
                    if p1.contains(x) {
                        let j = choose|j: int| 0 <= j < p1.len() && #[trigger] p1[j] == x;
                        if j < k {
                            assert(p0[j] == x);
                        }
                    }
                    if p0.contains(x) {
                        let j = choose|j: int| 0 <= j < p0.len() && #[trigger] p0[j] == x;
                        assert(p1[j] == x);
                    }
                    if x == c0 {
                        assert(p1[k as int] == x);
                    }
                }
                assert forall|x: Seq<char>| before.contains(x) <==> #[trigger] left_after(
                    old_names,
                    requested.subrange(0, k as int),
                ).contains(x) by {
                    assert(before.to_set().contains(x) == before.contains(x));
                }
                assert forall|x: Seq<char>| #[trigger] self@.to_set().contains(x) == left_after(old_names, p1).contains(x) by {
                    assert(self@.to_set().contains(x) == self@.contains(x));
                    assert(self@.contains(x) == (before.contains(x) && x != c0));
                    assert(before.contains(x) == left_after(old_names, p0).contains(x));
                    assert(left_after(old_names, p0).contains(x) == (old_names.contains(x) && !p0.contains(x)));
                    assert(left_after(old_names, p1).contains(x) == (old_names.contains(x) && !p1.contains(x)));
                    assert(p1.contains(x) == (p0.contains(x) || x == c0));
                }
                assert(self@.to_set() =~= left_after(old_names, p1));
                self@.unique_seq_to_set();
            }
            acks.push((names[k].clone(), frame));
            proof {
                assert(acks@[k as int].0@ == requested[k as int]);
            }
            k += 1;
        }
        proof {
            assert(requested.subrange(0, requested.len() as int) =~= requested);
        }
        acks
    }
}

/// The channels an UNSUBSCRIBE drops: those it names, or every subscribed
/// channel when it names none.
pub open spec fn unsubscribe_targets(subscribed: Seq<Seq<char>>, named: Seq<Seq<char>>) -> Seq<Seq<char>> {
    if named.len() == 0 {
        subscribed
    } else {
        named
    }
}

/// The channels of `subscribed` that are not in `removed`.
pub open spec fn left_after(subscribed: Seq<Seq<char>>, removed: Seq<Seq<char>>) -> Set<Seq<char>> {
    subscribed.to_set().difference(removed.to_set())
}

/// Handles a frame that a connection in subscribe mode receives: SUBSCRIBE
/// queues its channels in `pending`, UNSUBSCRIBE is applied at once and gives
/// its acknowledgements, and any other command is answered as unknown.
pub fn handle_command(frame: Frame, pending: &mut Vec<String>, subscriptions: &mut Subscriptions) -> (r: Result<Vec<(String, Frame)>, ParseError>)
    requires
        old(subscriptions).wf(),
    ensures
        final(subscriptions).wf(),
        r is Ok <==> super::frame_command(frame@) is Some,
        r is Err ==> final(pending)@ == old(pending)@ && final(subscriptions)@ == old(subscriptions)@,
        r is Ok ==> match super::frame_command(frame@)->Some_0 {
            CommandModel::Subscribe(names) => texts(final(pending)@) == texts(old(pending)@) + names
                && final(subscriptions)@ == old(subscriptions)@ && r->Ok_0@.len() == 0,
            CommandModel::Unsubscribe(names) => final(pending)@ == old(pending)@
                && final(subscriptions)@.to_set() == left_after(
                old(subscriptions)@,
                unsubscribe_targets(old(subscriptions)@, names),
            ) && r->Ok_0@.len() == unsubscribe_targets(old(subscriptions)@, names).len()
                && forall|i: int|
                0 <= i < r->Ok_0@.len() ==> (#[trigger] r->Ok_0@[i]).0@ == unsubscribe_targets(
                    old(subscriptions)@,
                    names,
                )[i] && r->Ok_0@[i].1@ == unsubscribe_ack(
                    r->Ok_0@[i].0@,
                    left_after(
                        old(subscriptions)@,
                        unsubscribe_targets(old(subscriptions)@, names).subrange(0, i + 1),
                    ).len() as usize,
                ),
            other => final(pending)@ == old(pending)@ && final(subscriptions)@ == old(subscriptions)@
                && r->Ok_0@.len() == 1 && r->Ok_0@[0].0@ == super::command_name(other)
                && r->Ok_0@[0].1@ == FrameModel::Error(super::unknown::unknown_message(super::command_name(other))),
        },
{
    match Command::from_frame(frame)? {
        Command::Subscribe(subscribe) => {
            let ghost before = pending@;
            let mut channels = subscribe.into_channels();
            let ghost added = channels@;
            pending.append(&mut channels);
            proof {
                assert(texts(pending@) =~= texts(before) + texts(added));
            }
            Ok(Vec::new())
        },
        Command::Unsubscribe(unsubscribe) => Ok(subscriptions.unsubscribe(unsubscribe)),
        command => {
            let cmd = Unknown::new(command.get_name());
            let mut v: Vec<(String, Frame)> = Vec::new();
            v.push((command.get_name().to_owned(), cmd.apply()));
            Ok(v)
        },
    }
}

/// The subscribed channels after subscribing to `c`, as [`Subscriptions::add`] leaves them.
pub open spec fn add_model(s: Seq<Seq<char>>, c: Seq<char>) -> Seq<Seq<char>> {
    if s.contains(c) {
        s
    } else {
        s.push(c)
    }
}

/// The subscribed channels after subscribing to each of `names` in turn.
pub open spec fn add_all(s: Seq<Seq<char>>, names: Seq<Seq<char>>) -> Seq<Seq<char>>
    decreases names.len(),
{
    if names.len() == 0 {
        s
    } else {
        add_model(add_all(s, names.drop_last()), names.last())
    }
}

/// Subscribing to channels one after another, on a connection that had none,
/// lists each distinct channel once: the count that the last acknowledgement
/// carries is the number of distinct channels asked for.
pub proof fn lemma_subscribe_counts(names: Seq<Seq<char>>)
    ensures
        add_all(Seq::empty(), names).no_duplicates(),
        add_all(Seq::empty(), names).to_set() == names.to_set(),
        add_all(Seq::empty(), names).len() == names.to_set().len(),
    decreases names.len(),
{
    broadcast use vstd::seq_lib::group_seq_properties;
    if names.len() == 0 {
        assert(names.to_set() =~= Set::<Seq<char>>::empty());
        assert(add_all(Seq::empty(), names).to_set() =~= Set::<Seq<char>>::empty());
    } else {
        let init = names.drop_last();
        let c = names.last();
        lemma_subscribe_counts(init);
        let prev = add_all(Seq::empty(), init);
        assert(names =~= init.push(c));
        if prev.contains(c) {
            assert(prev.to_set().contains(c));
            assert(names.to_set() =~= init.to_set().insert(c));
            assert(prev.to_set().insert(c) =~= prev.to_set());
        } else {
            let next = prev.push(c);
            assert(next.no_duplicates()) by {
                assert forall|a: int, b: int| 0 <= a < next.len() && 0 <= b < next.len() && a != b implies next[a] != next[b] by {
                    if a < prev.len() && b < prev.len() {
                    } else if a < prev.len() {
                        assert(prev.contains(next[a]));
                    } else {
                        assert(prev.contains(next[b]));
                    }
                }
            }
            assert(next.to_set() =~= prev.to_set().insert(c));
            assert(names.to_set() =~= init.to_set().insert(c));
        }
        add_all(Seq::empty(), names).unique_seq_to_set();
    }
}

} // verus!
