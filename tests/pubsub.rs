use mini_redis::cmd::Publish;
use mini_redis::frame::{encode_frame, Frame};
use mini_redis::pubsub::PubSub;

#[test]
fn publish_without_subscribers_returns_zero() {
    let mut pubsub = PubSub::new();
    assert_eq!(pubsub.publish("foo", b"hello".to_vec()), 0);
    assert_eq!(encode_frame(&Publish::reply(0)), b":0\r\n".to_vec());
}

#[test]
fn publish_counts_subscribers_and_delivers_in_order() {
    let mut pubsub = PubSub::new();
    let mut a = pubsub.subscribe("foo".to_string());
    let mut b = pubsub.subscribe("foo".to_string());
    let n = pubsub.publish("foo", b"hello".to_vec());
    assert_eq!(n, 2);
    assert_eq!(Publish::reply(n), Frame::Integer(2));
    assert_eq!(pubsub.publish("foo", b"world".to_vec()), 2);
    for rx in [&mut a, &mut b] {
        assert_eq!(rx.try_recv().unwrap(), b"hello".to_vec());
        assert_eq!(rx.try_recv().unwrap(), b"world".to_vec());
    }
    assert_eq!(pubsub.publish("bar", b"x".to_vec()), 0);
}

#[test]
fn publish_counts_only_live_receivers() {
    let mut pubsub = PubSub::new();
    let a = pubsub.subscribe("foo".to_string());
    drop(a);
    assert_eq!(pubsub.publish("foo", b"hello".to_vec()), 0);
    let _b = pubsub.subscribe("foo".to_string());
    assert_eq!(pubsub.publish("foo", b"hello".to_vec()), 1);
}

#[test]
fn message_frames_use_a_simple_tag() {
    let frame = mini_redis::cmd::subscribe::make_message_frame("foo", b"hello".to_vec());
    assert_eq!(
        frame,
        Frame::Array(vec![
            Frame::Simple("message".to_string()),
            Frame::Bulk(b"foo".to_vec()),
            Frame::Bulk(b"hello".to_vec()),
        ])
    );
    assert_eq!(encode_frame(&frame), b"*3\r\n+message\r\n$3\r\nfoo\r\n$5\r\nhello\r\n".to_vec());
}
