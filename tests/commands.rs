use mini_redis::cmd::subscribe::{handle_command, make_message_frame, Subscriptions};
use mini_redis::cmd::{Command, Get, Ping, Publish, SetCmd, Subscribe, Unknown, Unsubscribe};
use mini_redis::frame::{decode_frame, encode_frame, Frame, Progress};
use mini_redis::parse::{Parse, ParseError};

fn frame_of(bytes: &[u8]) -> Frame {
    match decode_frame(bytes) {
        Progress::Complete((f, _)) => f,
        other => panic!("{:?}", other),
    }
}

fn command_of(bytes: &[u8]) -> Command {
    Command::from_frame(frame_of(bytes)).expect("a command")
}

fn bulk_array(parts: &[&[u8]]) -> Frame {
    Frame::Array(parts.iter().map(|p| Frame::Bulk(p.to_vec())).collect())
}

#[test]
fn ping_roundtrip() {
    let reply = match command_of(b"*1\r\n$4\r\nping\r\n") {
        Command::Ping(p) => p.apply(),
        other => panic!("{:?}", other),
    };
    assert_eq!(encode_frame(&reply), b"+PONG\r\n".to_vec());
    let reply = match command_of(b"*2\r\n$4\r\nping\r\n$5\r\nhello\r\n") {
        Command::Ping(p) => p.apply(),
        other => panic!("{:?}", other),
    };
    assert_eq!(encode_frame(&reply), b"$5\r\nhello\r\n".to_vec());
}

#[test]
fn command_names_ignore_case() {
    match command_of(b"*2\r\n$3\r\nGeT\r\n$3\r\nfoo\r\n") {
        Command::Get(g) => assert_eq!(g.key(), "foo"),
        other => panic!("{:?}", other),
    }
}

#[test]
fn unknown_command_is_answered_with_its_lowercased_name() {
    let cmd = command_of(b"*2\r\n$4\r\nFOOS\r\n$1\r\nx\r\n");
    assert_eq!(cmd.get_name(), "foos");
    let reply = match cmd {
        Command::Unknown(u) => u.apply(),
        other => panic!("{:?}", other),
    };
    assert_eq!(encode_frame(&reply), b"-ERR unknown command 'foos'\r\n".to_vec());
    assert_eq!(Unknown::new("x").apply(), Frame::Error("ERR unknown command 'x'".to_string()));
}

#[test]
fn set_options() {
    match command_of(b"*5\r\n$3\r\nset\r\n$3\r\nfoo\r\n$3\r\nbar\r\n$2\r\npx\r\n$3\r\n100\r\n") {
        Command::SetCmd(s) => {
            assert_eq!(s.key(), "foo");
            assert_eq!(s.value(), &b"bar".to_vec());
            assert_eq!(s.expire(), Some(100));
        }
        other => panic!("{:?}", other),
    }
    match Command::from_frame(bulk_array(&[b"set", b"k", b"v", b"Ex", b"10"])).unwrap() {
        Command::SetCmd(s) => assert_eq!(s.expire(), Some(10_000)),
        other => panic!("{:?}", other),
    }
    match Command::from_frame(bulk_array(&[b"set", b"k", b"v"])).unwrap() {
        Command::SetCmd(s) => assert_eq!(s.expire(), None),
        other => panic!("{:?}", other),
    }
    assert!(Command::from_frame(bulk_array(&[b"set", b"k", b"v", b"NX"])).is_err());
    assert!(Command::from_frame(bulk_array(&[b"set", b"k", b"v", b"PX"])).is_err());
    assert!(Command::from_frame(bulk_array(&[b"set", b"k", b"v", b"PX", b"5", b"extra"])).is_err());
}

#[test]
fn set_ttl_from_an_integer_frame_or_digits() {
    let frame = Frame::Array(vec![
        Frame::Bulk(b"set".to_vec()),
        Frame::Bulk(b"k".to_vec()),
        Frame::Bulk(b"v".to_vec()),
        Frame::Simple("PX".to_string()),
        Frame::Integer(7),
    ]);
    match Command::from_frame(frame).unwrap() {
        Command::SetCmd(s) => assert_eq!(s.expire(), Some(7)),
        other => panic!("{:?}", other),
    }
    match Command::from_frame(bulk_array(&[b"set", b"k", b"v", b"px", b"12ms"])).unwrap() {
        Command::SetCmd(s) => assert_eq!(s.expire(), Some(12)),
        other => panic!("{:?}", other),
    }
    assert!(Command::from_frame(bulk_array(&[b"set", b"k", b"v", b"px", b"ms"])).is_err());
}

#[test]
fn parse_cursor() {
    let mut p = Parse::new(Frame::Array(vec![
        Frame::Simple("a".to_string()),
        Frame::Bulk(b"12".to_vec()),
        Frame::Integer(3),
    ]))
    .unwrap();
    assert_eq!(p.next_string(), Ok("a".to_string()));
    assert_eq!(p.next_int(), Ok(12));
    assert!(p.finish().is_err());
    assert!(matches!(p.next_string(), Err(ParseError::Other(_))));
    assert_eq!(p.next_bytes(), Err(ParseError::EndOfStream));
    assert_eq!(p.finish(), Ok(()));
    assert!(Parse::new(Frame::Null).is_err());
}

#[test]
fn invalid_utf8_key_is_rejected() {
    assert!(Command::from_frame(bulk_array(&[b"get", b"\xff\xfe"])).is_err());
    let mut p = Parse::new(bulk_array(&[b"\xff"])).unwrap();
    assert!(matches!(p.next_string(), Err(ParseError::Other(_))));
}

#[test]
fn malformed_commands_are_errors() {
    assert!(Command::from_frame(Frame::Simple("get".to_string())).is_err());
    assert!(Command::from_frame(bulk_array(&[b"get"])).is_err());
    assert!(Command::from_frame(bulk_array(&[b"get", b"a", b"b"])).is_err());
    assert!(Command::from_frame(bulk_array(&[b"publish", b"a"])).is_err());
    assert!(Command::from_frame(bulk_array(&[b"subscribe"])).is_err());
    assert!(Command::from_frame(Frame::Array(Vec::new())).is_err());
}

#[test]
fn request_frames() {
    assert_eq!(encode_frame(&Get::new("foo").into_frame()), b"*2\r\n$3\r\nget\r\n$3\r\nfoo\r\n".to_vec());
    assert_eq!(
        encode_frame(&SetCmd::new("foo", b"bar".to_vec(), None).into_frame()),
        b"*3\r\n$3\r\nset\r\n$3\r\nfoo\r\n$3\r\nbar\r\n".to_vec()
    );
    assert_eq!(
        encode_frame(&SetCmd::new("foo", b"bar".to_vec(), Some(100)).into_frame()),
        b"*5\r\n$3\r\nset\r\n$3\r\nfoo\r\n$3\r\nbar\r\n$2\r\npx\r\n:100\r\n".to_vec()
    );
    assert_eq!(
        encode_frame(&Publish::new("foo", b"hello".to_vec()).into_frame()),
        b"*3\r\n$7\r\npublish\r\n$3\r\nfoo\r\n$5\r\nhello\r\n".to_vec()
    );
    assert_eq!(
        encode_frame(&Ping::new(Some(b"hi".to_vec())).into_frame()),
        b"*2\r\n$4\r\nping\r\n$2\r\nhi\r\n".to_vec()
    );
    assert_eq!(
        encode_frame(&Subscribe::new(vec!["a".to_string(), "b".to_string()]).into_frame()),
        b"*3\r\n$9\r\nsubscribe\r\n$1\r\na\r\n$1\r\nb\r\n".to_vec()
    );
    assert_eq!(
        encode_frame(&Unsubscribe::new(&[]).into_frame()),
        b"*1\r\n$11\r\nunsubscribe\r\n".to_vec()
    );
}

#[test]
fn request_frames_parse_back() {
    match Command::from_frame(SetCmd::new("k", b"v".to_vec(), Some(5)).into_frame()).unwrap() {
        Command::SetCmd(s) => {
            assert_eq!(s.key(), "k");
            assert_eq!(s.expire(), Some(5));
        }
        other => panic!("{:?}", other),
    }
    match Command::from_frame(Subscribe::new(vec!["x".to_string()]).into_frame()).unwrap() {
        Command::Subscribe(s) => assert_eq!(s.channels(), &vec!["x".to_string()]),
        other => panic!("{:?}", other),
    }
}

#[test]
fn publish_replies_count_receivers() {
    assert_eq!(encode_frame(&Publish::reply(0)), b":0\r\n".to_vec());
    assert_eq!(encode_frame(&Publish::reply(2)), b":2\r\n".to_vec());
    let msg = make_message_frame("foo", b"hello".to_vec());
    assert_eq!(encode_frame(&msg), b"*3\r\n+message\r\n$3\r\nfoo\r\n$5\r\nhello\r\n".to_vec());
}

#[test]
fn subscribe_unsubscribe_bookkeeping() {
    let mut subs = Subscriptions::new();
    let a = subs.add("a".to_string());
    let b = subs.add("b".to_string());
    assert_eq!(encode_frame(&a), b"*3\r\n+subscribe\r\n$1\r\na\r\n:1\r\n".to_vec());
    assert_eq!(encode_frame(&b), b"*3\r\n+subscribe\r\n$1\r\nb\r\n:2\r\n".to_vec());
    let acks = subs.unsubscribe(Unsubscribe::new(&[]));
    assert_eq!(acks.len(), 2);
    let counts: Vec<Vec<u8>> = acks.iter().map(|(_, f)| encode_frame(f)).collect();
    assert!(counts[0].ends_with(b":1\r\n"));
    assert!(counts[1].ends_with(b":0\r\n"));
    assert!(counts.iter().all(|c| c.starts_with(b"*3\r\n+unsubscribe\r\n")));
    assert_eq!(subs.len(), 0);
}

#[test]
fn subscribing_twice_counts_the_channel_once() {
    let mut subs = Subscriptions::new();
    subs.add("a".to_string());
    let again = subs.add("a".to_string());
    assert_eq!(encode_frame(&again), b"*3\r\n+subscribe\r\n$1\r\na\r\n:1\r\n".to_vec());
    let acks = subs.unsubscribe(Unsubscribe::new(&["zz".to_string()]));
    assert_eq!(encode_frame(&acks[0].1), b"*3\r\n+unsubscribe\r\n$2\r\nzz\r\n:1\r\n".to_vec());
}

#[test]
fn commands_in_subscribe_mode() {
    let mut pending = Vec::new();
    let mut subs = Subscriptions::new();
    subs.add("a".to_string());
    let out = handle_command(bulk_array(&[b"subscribe", b"b", b"c"]), &mut pending, &mut subs).unwrap();
    assert!(out.is_empty());
    assert_eq!(pending, vec!["b".to_string(), "c".to_string()]);
    let out = handle_command(bulk_array(&[b"unsubscribe", b"a"]), &mut pending, &mut subs).unwrap();
    assert_eq!(out.len(), 1);
    assert_eq!(out[0].0, "a");
    let out = handle_command(bulk_array(&[b"get", b"k"]), &mut pending, &mut subs).unwrap();
    assert_eq!(out[0].1, Frame::Error("ERR unknown command 'get'".to_string()));
    assert!(handle_command(Frame::Integer(1), &mut pending, &mut subs).is_err());
}

#[test]
fn subscribe_count_is_the_number_of_distinct_channels() {
    let mut subs = Subscriptions::new();
    let mut last = Frame::Null;
    for name in ["a", "b", "a", "c", "b"] {
        last = subs.add(name.to_string());
    }
    assert_eq!(subs.len(), 3);
    assert_eq!(encode_frame(&last), b"*3\r\n+subscribe\r\n$1\r\nb\r\n:3\r\n".to_vec());
    assert!(subs.contains("c"));
    assert!(!subs.contains("d"));
}

#[test]
fn named_unsubscribe_counts_the_channels_left() {
    let mut pending = Vec::new();
    let mut subs = Subscriptions::new();
    for name in ["a", "b", "c"] {
        subs.add(name.to_string());
    }
    let out = handle_command(bulk_array(&[b"unsubscribe", b"b", b"zz", b"a"]), &mut pending, &mut subs).unwrap();
    let names: Vec<&str> = out.iter().map(|(n, _)| n.as_str()).collect();
    assert_eq!(names, vec!["b", "zz", "a"]);
    assert_eq!(encode_frame(&out[0].1), b"*3\r\n+unsubscribe\r\n$1\r\nb\r\n:2\r\n".to_vec());
    assert_eq!(encode_frame(&out[1].1), b"*3\r\n+unsubscribe\r\n$2\r\nzz\r\n:2\r\n".to_vec());
    assert_eq!(encode_frame(&out[2].1), b"*3\r\n+unsubscribe\r\n$1\r\na\r\n:1\r\n".to_vec());
    assert_eq!(subs.len(), 1);
    assert!(subs.contains("c"));
}
