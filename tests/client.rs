use mini_redis::client::{
    apply_unsubscribe_ack, check_subscribe_ack, expected_unsubscribe_acks, get_response,
    message_from_frame, ping_response, publish_response, read_response, set_response,
    ClientError,
};
use mini_redis::cmd::subscribe::{make_message_frame, make_subscribe_frame, make_unsubscribe_frame};
use mini_redis::frame::Frame;

#[test]
fn responses() {
    assert_eq!(read_response(None), Err(ClientError::ConnectionReset));
    assert_eq!(
        read_response(Some(Frame::Error("ERR x".to_string()))),
        Err(ClientError::Server("ERR x".to_string()))
    );
    assert_eq!(ping_response(Frame::Simple("PONG".to_string())), Ok(b"PONG".to_vec()));
    assert!(matches!(ping_response(Frame::Null), Err(ClientError::Protocol(_))));
    assert_eq!(get_response(Frame::Null), Ok(None));
    assert_eq!(get_response(Frame::Bulk(b"v".to_vec())), Ok(Some(b"v".to_vec())));
    assert_eq!(set_response(Frame::Simple("OK".to_string())), Ok(()));
    assert!(set_response(Frame::Simple("ok".to_string())).is_err());
    assert_eq!(publish_response(Frame::Integer(3)), Ok(3));
    assert!(publish_response(Frame::Null).is_err());
}

#[test]
fn subscribe_acks() {
    let ack = make_subscribe_frame("news", 1);
    assert_eq!(check_subscribe_ack(&ack, "news"), Ok(()));
    assert!(check_subscribe_ack(&ack, "other").is_err());
    assert!(check_subscribe_ack(&make_unsubscribe_frame("news", 0), "news").is_err());
}

#[test]
fn unsubscribe_acks_remove_one_channel_each() {
    let mut subscribed = vec!["a".to_string(), "b".to_string()];
    assert_eq!(expected_unsubscribe_acks(0, subscribed.len()), 2);
    assert_eq!(expected_unsubscribe_acks(1, subscribed.len()), 1);
    assert_eq!(apply_unsubscribe_ack(&mut subscribed, &make_unsubscribe_frame("b", 1)), Ok(()));
    assert_eq!(subscribed, vec!["a".to_string()]);
    assert!(apply_unsubscribe_ack(&mut subscribed, &make_unsubscribe_frame("zz", 1)).is_err());
    assert_eq!(apply_unsubscribe_ack(&mut subscribed, &make_unsubscribe_frame("a", 0)), Ok(()));
    assert!(subscribed.is_empty());
    assert!(apply_unsubscribe_ack(&mut subscribed, &make_unsubscribe_frame("a", 0)).is_err());
}

#[test]
fn messages() {
    let msg = message_from_frame(&make_message_frame("foo", b"hello".to_vec())).unwrap();
    assert_eq!(msg.channel, "foo");
    assert_eq!(msg.content, b"hello".to_vec());
    assert!(message_from_frame(&make_subscribe_frame("foo", 1)).is_err());
    assert!(message_from_frame(&Frame::Null).is_err());
}
