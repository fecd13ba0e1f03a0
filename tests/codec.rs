use mini_redis::connection::{FrameError, ReadBuffer};
use mini_redis::frame::{check_frame, decode_frame, encode_frame, Frame, Progress};

fn decode_all(bytes: &[u8]) -> Frame {
    match decode_frame(bytes) {
        Progress::Complete((frame, n)) => {
            assert_eq!(n, bytes.len());
            frame
        }
        other => panic!("not a complete frame: {:?}", other),
    }
}

#[test]
fn decodes_each_kind() {
    assert_eq!(decode_all(b"+OK\r\n"), Frame::Simple("OK".to_string()));
    assert_eq!(decode_all(b"-ERR bad\r\n"), Frame::Error("ERR bad".to_string()));
    assert_eq!(decode_all(b":42\r\n"), Frame::Integer(42));
    assert_eq!(decode_all(b"$3\r\nbar\r\n"), Frame::Bulk(b"bar".to_vec()));
    assert_eq!(decode_all(b"$0\r\n\r\n"), Frame::Bulk(Vec::new()));
    assert_eq!(decode_all(b"$-1\r\n"), Frame::Null);
    assert_eq!(decode_all(b"*-1\r\n"), Frame::Null);
    assert_eq!(decode_all(b"*0\r\n"), Frame::Array(Vec::new()));
    assert_eq!(
        decode_all(b"*2\r\n$3\r\nget\r\n$3\r\nfoo\r\n"),
        Frame::Array(vec![Frame::Bulk(b"get".to_vec()), Frame::Bulk(b"foo".to_vec())])
    );
}

#[test]
fn decodes_largest_integer_and_rejects_overflow() {
    assert_eq!(decode_all(b":18446744073709551615\r\n"), Frame::Integer(u64::MAX));
    assert_eq!(decode_frame(b":18446744073709551616\r\n"), Progress::Invalid);
}

#[test]
fn decode_reports_the_bytes_it_takes() {
    match decode_frame(b"+OK\r\n:1\r\n") {
        Progress::Complete((f, n)) => {
            assert_eq!(f, Frame::Simple("OK".to_string()));
            assert_eq!(n, 5);
        }
        other => panic!("{:?}", other),
    }
}

#[test]
fn decode_incomplete_then_complete() {
    let whole = b"*2\r\n$4\r\nping\r\n$5\r\nhello\r\n";
    for cut in 0..whole.len() {
        assert_eq!(decode_frame(&whole[..cut]), Progress::Incomplete, "prefix of {} bytes", cut);
    }
    assert!(matches!(decode_frame(whole), Progress::Complete((_, 25))));
}

#[test]
fn decode_invalid_stays_invalid() {
    for bad in [&b"?x\r\n"[..], b":12a\r\n", b"+a\rb\r\n", b"+a\nb\r\n", b"$3\r\nabcd\r\n", b":\r\n", b"*1\r\n*0\r\n", b"+\xff\r\n"] {
        assert_eq!(decode_frame(bad), Progress::Invalid);
        let mut longer = bad.to_vec();
        longer.extend_from_slice(b"\r\n+OK\r\n");
        assert_eq!(decode_frame(&longer), Progress::Invalid);
    }
}

#[test]
fn decode_empty_is_incomplete() {
    assert_eq!(decode_frame(b""), Progress::Incomplete);
}

#[test]
fn encodes_each_kind() {
    assert_eq!(encode_frame(&Frame::Simple("PONG".to_string())), b"+PONG\r\n".to_vec());
    assert_eq!(encode_frame(&Frame::Error("ERR x".to_string())), b"-ERR x\r\n".to_vec());
    assert_eq!(encode_frame(&Frame::Integer(0)), b":0\r\n".to_vec());
    assert_eq!(encode_frame(&Frame::Integer(1234)), b":1234\r\n".to_vec());
    assert_eq!(encode_frame(&Frame::Integer(u64::MAX)), b":18446744073709551615\r\n".to_vec());
    assert_eq!(encode_frame(&Frame::Bulk(b"bar".to_vec())), b"$3\r\nbar\r\n".to_vec());
    assert_eq!(encode_frame(&Frame::Null), b"$-1\r\n".to_vec());
    let mut frame = Frame::array();
    frame.push_bulk(b"message".to_vec());
    frame.push_int(7);
    assert_eq!(encode_frame(&frame), b"*2\r\n$7\r\nmessage\r\n:7\r\n".to_vec());
}

#[test]
fn round_trip_of_canonical_bytes() {
    for bytes in [
        &b"+OK\r\n"[..],
        b"-ERR x\r\n",
        b":0\r\n",
        b":90\r\n",
        b"$5\r\nhello\r\n",
        b"$-1\r\n",
        b"*3\r\n$3\r\nset\r\n$3\r\nfoo\r\n$3\r\nbar\r\n",
        b"*2\r\n+a\r\n:5\r\n",
    ] {
        let frame = decode_all(bytes);
        assert_eq!(encode_frame(&frame), bytes.to_vec());
    }
}

#[test]
fn read_buffer_takes_frames_from_the_front() {
    let mut buf = ReadBuffer::new();
    assert_eq!(buf.parse_frame(), Ok(None));
    buf.extend(b"+OK\r\n:1");
    assert_eq!(buf.parse_frame(), Ok(Some(Frame::Simple("OK".to_string()))));
    assert_eq!(buf.parse_frame(), Ok(None));
    assert_eq!(buf.end_of_stream(), Err(FrameError::ConnectionReset));
    buf.extend(b"\r\n");
    assert_eq!(buf.parse_frame(), Ok(Some(Frame::Integer(1))));
    assert!(buf.is_empty());
    assert_eq!(buf.end_of_stream(), Ok(()));
}

#[test]
fn read_buffer_reports_invalid_bytes() {
    let mut buf = ReadBuffer::new();
    buf.extend(b"!oops\r\n");
    assert_eq!(buf.parse_frame(), Err(FrameError::Invalid));
}

#[test]
fn check_agrees_with_decode() {
    assert_eq!(check_frame(b"*2\r\n$3\r\nget\r\n$3\r\nfoo\r\n"), Progress::Complete(22));
    assert_eq!(check_frame(b"*2\r\n$3\r\nget\r\n$3\r\nfo"), Progress::Incomplete);
    assert_eq!(check_frame(b"+OK\r\n+more"), Progress::Complete(5));
    assert_eq!(check_frame(b"$-1\r\n"), Progress::Complete(5));
    assert_eq!(check_frame(b"+\xff\r\n"), Progress::Invalid);
    assert_eq!(check_frame(b"*1\r\n*0\r\n"), Progress::Invalid);
    assert_eq!(check_frame(b""), Progress::Incomplete);
}
