use mqtt::client::{
    begin_frame, handle_publish, handle_suback, publish_responses, Client, ClientError, Dispatch,
};
use mqtt::length::decode_length;
use mqtt::message::{make_publish, DecodeError, CONNACK, DISCONNECT};

type Handler = fn(Vec<u8>) -> Option<Vec<u8>>;

fn silent(_payload: Vec<u8>) -> Option<Vec<u8>> {
    None
}

fn echo(payload: Vec<u8>) -> Option<Vec<u8>> {
    let mut reply = vec![0xEE];
    reply.extend(payload);
    Some(reply)
}

fn fresh() -> Client<Handler> {
    Client::new("iden", "username", "password", 15)
}

fn connected() -> Client<Handler> {
    let mut client = fresh();
    assert_eq!(client.connect(&CONNACK), Ok(()));
    client
}

fn published(dispatch: Dispatch) -> Vec<Vec<u8>> {
    match dispatch {
        Dispatch::Published(messages) => messages,
        _ => panic!("not a publish"),
    }
}

#[test]
fn short_connect() {
    let client = Client::<Handler>::new("iden", "username", "password", 15);
    assert_eq!(
        client.make_connect(),
        vec![
            16, 38, 0, 6, 77, 81, 73, 115, 100, 112, 3, 194, 0, 15, 0, 4, 105, 100, 101, 110,
            0, 8, 117, 115, 101, 114, 110, 97, 109, 101, 0, 8, 112, 97, 115, 115, 119, 111,
            114, 100
        ]
    );
}

#[test]
fn short_subscribe() {
    let mut client = Client::<Handler>::new("iden", "username", "password", 15);
    assert_eq!(
        client.make_subscribe("test/topic"),
        vec![130, 15, 0, 1, 0, 10, 116, 101, 115, 116, 47, 116, 111, 112, 105, 99, 1]
    );
}

#[test]
fn client_publish() {
    {
        assert_eq!(
            handle_publish(&[0, 27], "a/b", 1, Vec::new(), None::<&Handler>),
            vec![vec![0x40, 2, 0, 27]]
        );

        assert_eq!(
            handle_publish(&[0, 27], "a/b", 0, Vec::new(), None::<&Handler>),
            Vec::<Vec<u8>>::new()
        );
    };
}

#[test]
fn connect_with_the_shortest_and_the_longest_identity() {
    let client = Client::<Handler>::new("c", "u", "p", 0);
    assert_eq!(
        client.make_connect(),
        vec![16, 21, 0, 6, 77, 81, 73, 115, 100, 112, 3, 194, 0, 0, 0, 1, b'c', 0, 1, b'u', 0, 1, b'p']
    );

    let id = "i".repeat(23);
    let user = "u".repeat(12);
    let pass = "p".repeat(12);
    let packet = Client::<Handler>::new(&id, &user, &pass, 255).make_connect();
    assert_eq!(packet.len(), 67);
    assert_eq!(packet[1], 65);
    assert_eq!(&packet[12..16], &[0, 255, 0, 23]);
    assert_eq!(&packet[16..39], id.as_bytes());
    assert_eq!(&packet[39..41], &[0, 12]);
    assert_eq!(&packet[41..53], user.as_bytes());
    assert_eq!(&packet[53..55], &[0, 12]);
    assert_eq!(&packet[55..], pass.as_bytes());
}

#[test]
fn a_new_session() {
    let client = fresh();
    assert!(!client.is_connected());
    assert_eq!(client.next_message_id(), 1);
    assert_eq!(client.pending_subscribe_ids(), &[] as &[u8]);
    assert_eq!(client.keep_alive_secs(), 15);
    assert_eq!(client.read_timeout_secs(), 30);
    assert_eq!(Client::<Handler>::new("a", "b", "c", 255).read_timeout_secs(), 510);
}

#[test]
fn packet_id_goes_up_by_one() {
    let mut client = fresh();
    let first = client.make_subscribe("test/topic");
    assert_eq!(&first[2..4], &[0, 1]);
    assert_eq!(client.next_message_id(), 2);
    let second = client.make_subscribe("test/topic");
    assert_eq!(
        second,
        vec![130, 15, 0, 2, 0, 10, 116, 101, 115, 116, 47, 116, 111, 112, 105, 99, 1]
    );
    assert_eq!(client.next_message_id(), 3);
}

#[test]
fn subscribe_encodes_the_remaining_length() {
    let mut client = fresh();
    assert_eq!(client.make_subscribe(""), vec![0x82, 5, 0, 1, 0, 0, 1]);

    // 122 bytes of topic are the most that one length byte holds
    let topic = "t".repeat(122);
    let packet = client.make_subscribe(&topic);
    assert_eq!(&packet[..6], &[0x82, 127, 0, 2, 0, 122]);
    assert_eq!(packet.len(), 2 + 127);

    let topic = "t".repeat(123);
    let packet = client.make_subscribe(&topic);
    assert_eq!(&packet[..7], &[0x82, 0x80, 0x01, 0, 3, 0, 123]);
    assert_eq!(packet.len(), 3 + 128);

    let topic = "t".repeat(127);
    let packet = client.make_subscribe(&topic);
    assert_eq!(&packet[..7], &[0x82, 0x84, 0x01, 0, 4, 0, 127]);
    assert_eq!(&packet[7..134], topic.as_bytes());
    assert_eq!(packet[134], 1);
    assert_eq!(packet.len(), 135);
}

#[test]
fn every_subscribe_sizes_itself() {
    for topic_len in 0..=127usize {
        let mut client = fresh();
        let topic = "s".repeat(topic_len);
        let packet = client.make_subscribe(&topic);
        let (remaining, consumed) = decode_length(&packet);
        assert_eq!(remaining, topic_len + 5);
        assert_eq!(consumed + remaining, packet.len());
        assert_eq!(&packet[consumed..consumed + 2], &[0, 1]);
        assert_eq!(begin_frame(&packet[..5]).unwrap().len(), packet.len());
    }
}

#[test]
fn every_connect_sizes_itself() {
    for (id, user, pass) in [(1usize, 1usize, 1usize), (4, 8, 8), (23, 1, 12), (23, 12, 12)] {
        let client =
            Client::<Handler>::new(&"i".repeat(id), &"u".repeat(user), &"p".repeat(pass), 60);
        let packet = client.make_connect();
        assert_eq!(decode_length(&packet), (18 + id + user + pass, 2));
        assert_eq!(packet.len(), 20 + id + user + pass);
    }
}

#[test]
fn a_long_topic_is_pending_under_its_identifier() {
    let mut client = connected();
    let topic = "t".repeat(127);
    let packet = client.subscribe(&topic, silent).unwrap();
    assert_eq!(&packet[..7], &[0x82, 0x84, 0x01, 0, 1, 0, 127]);
    assert_eq!(client.pending_subscribe_ids(), &[1]);
    let packet = client.subscribe(&topic, silent).unwrap();
    assert_eq!(&packet[3..5], &[0, 2]);
    assert_eq!(client.pending_subscribe_ids(), &[1, 2]);
    assert_eq!(client.handle_frame(&[0x90, 3, 0, 1, 1]), Dispatch::Subscribed(1));
    assert_eq!(client.pending_subscribe_ids(), &[2]);
}

#[test]
fn handshake() {
    let mut client = fresh();
    assert_eq!(client.connect(&CONNACK), Ok(()));
    assert!(client.is_connected());
}

#[test]
fn handshake_refused() {
    for reply in [
        &[0x20u8, 2, 0, 1][..],
        &[0x20, 2, 0, 5],
        &[0x20, 2, 1, 0],
        &[0xD0, 0],
        &[0x90, 3, 0, 1, 1],
        &[0x30, 5, 0, 3, b'a', b'/', b'b'],
        &[0x20, 2, 0, 0, 0],
        &[0, 0, 0, 0],
        &[],
    ] {
        let mut client = fresh();
        assert_eq!(client.connect(reply), Err(ClientError::UnexpectedMessage));
        assert!(!client.is_connected());
        assert_eq!(client.next_message_id(), 1);
    }
}

#[test]
fn subscribe_while_connected() {
    let mut client = connected();
    assert_eq!(
        client.subscribe("test/topic", silent),
        Ok(vec![130, 15, 0, 1, 0, 10, 116, 101, 115, 116, 47, 116, 111, 112, 105, 99, 1])
    );
    assert_eq!(client.pending_subscribe_ids(), &[1]);
    assert_eq!(client.next_message_id(), 2);
    assert_eq!(
        client.subscribe("a/b", echo),
        Ok(vec![130, 8, 0, 2, 0, 3, b'a', b'/', b'b', 1])
    );
    assert_eq!(client.pending_subscribe_ids(), &[1, 2]);
    assert_eq!(client.next_message_id(), 3);
}

#[test]
fn subscribe_while_disconnected() {
    let mut client = fresh();
    assert_eq!(client.subscribe("a/b", echo), Err(ClientError::NotConnected));
    // the identifier is used up and the handler is in place
    assert_eq!(client.next_message_id(), 2);
    assert_eq!(client.pending_subscribe_ids(), &[] as &[u8]);
    assert_eq!(client.connect(&CONNACK), Ok(()));
    let frame = [0x30, 6, 0, 3, b'a', b'/', b'b', 7];
    assert_eq!(published(client.handle_frame(&frame)), vec![vec![0xEE, 7]]);
}

#[test]
fn publish_needs_a_connection() {
    let mut client = fresh();
    assert_eq!(client.publish("a/b", "payload"), Err(ClientError::NotConnected));
    assert_eq!(client.connect(&CONNACK), Ok(()));
    assert_eq!(
        client.publish("a/b", "payload"),
        Ok(vec![0x30, 12, 0, 3, b'a', b'/', b'b', b'p', b'a', b'y', b'l', b'o', b'a', b'd'])
    );
    assert_eq!(client.publish("a/b", "payload"), Ok(make_publish("a/b", "payload")));
    assert_eq!(client.next_message_id(), 1);
    assert!(client.is_connected());
}

#[test]
fn disconnect_ends_the_session() {
    let mut client = connected();
    assert_eq!(client.disconnect(), vec![0xE0, 0]);
    assert!(!client.is_connected());
    assert_eq!(client.publish("a", "b"), Err(ClientError::NotConnected));
    assert_eq!(client.subscribe("a", silent), Err(ClientError::NotConnected));

    let mut client = connected();
    assert_eq!(client.subscribe("a", silent).unwrap()[3], 1);
    assert_eq!(client.disconnect(), DISCONNECT.to_vec());
    assert_eq!(client.pending_subscribe_ids(), &[1]);
    assert_eq!(client.next_message_id(), 2);
}

#[test]
fn suback_takes_the_identifier_out() {
    let mut pending = vec![1, 2, 3];
    assert!(handle_suback(&[0x90, 3, 0, 2, 1], &mut pending));
    assert_eq!(pending, vec![1, 3]);
    assert!(!handle_suback(&[0x90, 3, 0, 2, 1], &mut pending));
    assert_eq!(pending, vec![1, 3]);
    assert!(handle_suback(&[0x90, 3, 0, 1, 1], &mut pending));
    assert!(handle_suback(&[0x90, 2, 0, 3], &mut pending));
    assert_eq!(pending, Vec::<u8>::new());
    assert!(!handle_suback(&[0x90, 3, 0, 3, 1], &mut pending));
}

#[test]
fn suback_takes_only_the_first_of_equal_identifiers() {
    let mut pending = vec![5, 7, 5, 7];
    assert!(handle_suback(&[0x90, 3, 0, 7, 1], &mut pending));
    assert_eq!(pending, vec![5, 5, 7]);
    assert!(handle_suback(&[0x90, 3, 9, 5, 0], &mut pending));
    assert_eq!(pending, vec![5, 7]);
}

#[test]
fn answers_to_a_publish() {
    assert_eq!(publish_responses(&[0, 27], 1, None), vec![vec![0x40, 2, 0, 27]]);
    assert_eq!(
        publish_responses(&[0, 27], 1, Some(vec![9, 9])),
        vec![vec![0x40, 2, 0, 27], vec![9, 9]]
    );
    assert_eq!(publish_responses(&[], 0, None), Vec::<Vec<u8>>::new());
    assert_eq!(publish_responses(&[], 0, Some(vec![9])), vec![vec![9]]);
    assert_eq!(publish_responses(&[1, 2, 3], 1, Some(vec![])), vec![vec![0x40, 2, 1, 2], vec![]]);
    // only quality of service 1 is acknowledged
    assert_eq!(publish_responses(&[0, 27], 2, None), Vec::<Vec<u8>>::new());
}

#[test]
fn puback_does_not_depend_on_the_handler() {
    let with_reply: Handler = echo;
    let without_reply: Handler = silent;
    for handler in [None, Some(&with_reply), Some(&without_reply)] {
        let at_one = handle_publish(&[0, 27], "a/b", 1, vec![1], handler);
        assert_eq!(at_one[0], vec![0x40, 2, 0, 27]);
        let at_zero = handle_publish(&[0, 27], "a/b", 0, vec![1], handler);
        assert!(!at_zero.contains(&vec![0x40, 2, 0, 27]));
    }
    assert_eq!(
        handle_publish(&[0, 27], "a/b", 1, vec![1], Some(&with_reply)),
        vec![vec![0x40, 2, 0, 27], vec![0xEE, 1]]
    );
    assert_eq!(
        handle_publish(&[0, 27], "a/b", 0, vec![1], Some(&with_reply)),
        vec![vec![0xEE, 1]]
    );
    assert_eq!(
        handle_publish(&[0, 27], "a/b", 1, vec![1], Some(&without_reply)),
        vec![vec![0x40, 2, 0, 27]]
    );
    assert_eq!(
        handle_publish(&[0, 27], "a/b", 0, vec![1], Some(&without_reply)),
        Vec::<Vec<u8>>::new()
    );
}

#[test]
fn handler_is_a_closure() {
    let prefix = vec![1u8, 2];
    let handler = move |payload: Vec<u8>| {
        let mut reply = prefix.clone();
        reply.extend(payload);
        Some(reply)
    };
    assert_eq!(
        handle_publish(&[], "t", 0, vec![3], Some(&handler)),
        vec![vec![1, 2, 3]]
    );
}

#[test]
fn frames_of_a_running_session() {
    let mut client = connected();
    client.subscribe("quiet", silent).unwrap();
    client.subscribe("loud", echo).unwrap();
    assert_eq!(client.pending_subscribe_ids(), &[1, 2]);

    assert!(matches!(client.handle_frame(&[0xD0, 0]), Dispatch::Alive));
    assert!(matches!(client.handle_frame(&[0x90, 3, 0, 2, 1]), Dispatch::Subscribed(2)));
    assert_eq!(client.pending_subscribe_ids(), &[1]);
    assert!(matches!(client.handle_frame(&[0x90, 3, 0, 2, 1]), Dispatch::UnknownSuback));
    assert!(matches!(client.handle_frame(&[0x90, 3, 0, 9, 1]), Dispatch::UnknownSuback));
    assert!(matches!(client.handle_frame(&[0x90, 1, 0]), Dispatch::UnknownSuback));
    assert_eq!(client.pending_subscribe_ids(), &[1]);
    assert!(matches!(client.handle_frame(&[0x90, 3, 0, 1, 1]), Dispatch::Subscribed(1)));
    assert_eq!(client.pending_subscribe_ids(), &[] as &[u8]);

    assert!(matches!(client.handle_frame(&CONNACK), Dispatch::Unexpected));
    assert!(matches!(
        client.handle_frame(&[0xD0, 1]),
        Dispatch::Malformed(DecodeError::ProtocolError)
    ));
    assert!(matches!(
        client.handle_frame(&[0x50, 0]),
        Dispatch::Malformed(DecodeError::UnknownType)
    ));
    assert!(matches!(
        client.handle_frame(&[0x30]),
        Dispatch::Malformed(DecodeError::TooShort)
    ));
    assert!(matches!(
        client.handle_frame(&[0x34, 3, 0, 1, b'q']),
        Dispatch::Malformed(DecodeError::UnsupportedQos)
    ));
    assert!(client.is_connected());
    assert_eq!(client.next_message_id(), 3);
}

#[test]
fn publish_frames_go_to_the_handler_of_their_topic() {
    let mut client = connected();
    client.subscribe("quiet", silent).unwrap();
    client.subscribe("loud", echo).unwrap();

    let loud0 = [0x30, 8, 0, 4, b'l', b'o', b'u', b'd', 1, 2];
    assert_eq!(published(client.handle_frame(&loud0)), vec![vec![0xEE, 1, 2]]);
    let loud1 = [0x32, 10, 0, 4, b'l', b'o', b'u', b'd', 0, 27, 1, 2];
    assert_eq!(
        published(client.handle_frame(&loud1)),
        vec![vec![0x40, 2, 0, 27], vec![0xEE, 1, 2]]
    );
    let quiet0 = [0x30, 8, 0, 5, b'q', b'u', b'i', b'e', b't', 1];
    assert_eq!(published(client.handle_frame(&quiet0)), Vec::<Vec<u8>>::new());
    let quiet1 = [0x32, 10, 0, 5, b'q', b'u', b'i', b'e', b't', 3, 4, 1];
    assert_eq!(published(client.handle_frame(&quiet1)), vec![vec![0x40, 2, 3, 4]]);
    let other0 = [0x30, 5, 0, 3, b'a', b'/', b'b'];
    assert_eq!(published(client.handle_frame(&other0)), Vec::<Vec<u8>>::new());
    let other1 = [0x32, 7, 0, 3, b'a', b'/', b'b', 0, 27];
    assert_eq!(published(client.handle_frame(&other1)), vec![vec![0x40, 2, 0, 27]]);
}

#[test]
fn a_later_handler_replaces_an_earlier_one() {
    let mut client = connected();
    client.subscribe("t", silent).unwrap();
    let frame = [0x30, 4, 0, 1, b't', 5];
    assert_eq!(published(client.handle_frame(&frame)), Vec::<Vec<u8>>::new());
    client.subscribe("t", echo).unwrap();
    assert_eq!(published(client.handle_frame(&frame)), vec![vec![0xEE, 5]]);
    assert_eq!(client.pending_subscribe_ids(), &[1, 2]);
}

#[test]
fn frame_buffers() {
    // a frame that the header holds whole
    assert_eq!(begin_frame(&[0xD0, 0, 0, 0, 0]), Some(vec![0xD0, 0]));
    assert_eq!(begin_frame(&[0x20, 2, 0, 0, 9]), Some(vec![0x20, 2, 0, 0]));
    assert_eq!(begin_frame(&[0x90, 3, 0, 1, 1]), Some(vec![0x90, 3, 0, 1, 1]));
    // a frame that goes on after the header
    assert_eq!(
        begin_frame(&[0x30, 5, 0, 3, b'a']),
        Some(vec![0x30, 5, 0, 3, b'a', 0, 0])
    );
    let long = begin_frame(&[0x30, 0x80, 0x01, 0, 3]).unwrap();
    assert_eq!(long.len(), 3 + 128);
    assert_eq!(&long[..5], &[0x30, 0x80, 0x01, 0, 3]);
    assert!(long[5..].iter().all(|b| *b == 0));
    // a header that is shorter than five bytes
    assert_eq!(begin_frame(&[0x30, 4]), Some(vec![0x30, 4, 0, 0, 0, 0]));
    // no length
    assert_eq!(begin_frame(&[0x30, 0x80, 0x80, 0x80, 0x80]), None);
    assert_eq!(begin_frame(&[0x30]), None);
    assert_eq!(begin_frame(&[]), None);
}

#[test]
fn client_error_messages() {
    assert_eq!(ClientError::NotConnected.message(), "Client not connected");
    assert_eq!(
        ClientError::UnexpectedMessage.message(),
        "Expected CONNACK from server"
    );
}

#[test]
fn dispatch_values() {
    let mut client = connected();
    assert_eq!(client.handle_frame(&[0xD0, 0]), Dispatch::Alive);
    assert_eq!(client.handle_frame(&[0x90, 3, 0, 1, 1]), Dispatch::UnknownSuback);
    assert_eq!(client.handle_frame(&CONNACK), Dispatch::Unexpected);
    assert_eq!(
        client.handle_frame(&[0x30, 0]),
        Dispatch::Malformed(DecodeError::EmptyPublish)
    );
    assert_eq!(
        client.handle_frame(&[0x32, 7, 0, 3, b'a', b'/', b'b', 0, 27]),
        Dispatch::Published(vec![vec![0x40, 2, 0, 27]])
    );
}
