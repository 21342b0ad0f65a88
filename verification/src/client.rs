//! The session: who the client is, whether it is connected, which
//! subscriptions await their acknowledgement, and which handler serves which
//! topic. Every method is a step of a state machine: it takes what arrived,
//! changes the session, and returns the packets to put on the outbound queue.

use crate::length::{
    checked_decode_length, consumed, decoded_length, encode_length, encoded_length, has_length,
    lemma_well_framed, length_end, remaining_length, well_framed, MAX_REMAINING_LENGTH,
};
use crate::message::{
    lemma_fixed_packets_framed, lemma_parsed_publish_shape, make_puback, make_publish, parse_slice, parsed, publish_bytes,
    puback_bytes, DecodeError, Message, MessageView, CONNACK, DISCONNECT, MAX_TOPIC_LENGTH,
};
use vstd::hash_map::StringHashMap;
use vstd::prelude::*;
use vstd::slice::slice_to_vec;
use vstd::string::StringSliceAdditionalSpecFns;

verus! {

/// Longest client identifier, in bytes.
pub const MAX_CLIENT_ID_LENGTH: usize = 23;

/// Longest user name and longest password, in bytes.
pub const MAX_CREDENTIAL_LENGTH: usize = 12;

/// Why a session refused a request.
#[derive(Clone, Copy, Debug, PartialEq, Eq, Structural)]
pub enum ClientError {
    /// The session is not connected.
    NotConnected,
    /// The broker answered the CONNECT with something else than the
    /// accepting CONNACK.
    UnexpectedMessage,
}

impl ClientError {
    /// What went wrong, in words.
    pub open spec fn text(self) -> Seq<char> {
        match self {
            ClientError::NotConnected => "Client not connected"@,
            ClientError::UnexpectedMessage => "Expected CONNACK from server"@,
        }
    }

    /// What went wrong, in words.
    pub fn message(&self) -> (text: &'static str)
        ensures
            text@ == self.text(),
    {
        match self {
            ClientError::NotConnected => "Client not connected",
            ClientError::UnexpectedMessage => "Expected CONNACK from server",
        }
    }
}

/// An MQTT session. `H` is the type of the handlers that serve the
/// subscribed topics: a handler takes a payload and may return a packet to
/// send back.
#[verifier::reject_recursive_types(H)]
pub struct Client<H> {
    client_id: Vec<u8>,
    username: Vec<u8>,
    password: Vec<u8>,
    connected: bool,
    keep_alive_secs: u8,
    pending_subscribe_ids: Vec<u8>,
    next_message_id: u8,
    publish_functions: StringHashMap<H>,
}

/// What a session holds, as mathematical values.
#[verifier::reject_recursive_types(H)]
pub struct ClientView<H> {
    pub client_id: Seq<u8>,
    pub username: Seq<u8>,
    pub password: Seq<u8>,
    pub connected: bool,
    pub keep_alive_secs: u8,
    /// Identifiers of the subscriptions that the broker has not yet
    /// acknowledged, oldest first.
    pub pending_subscribe_ids: Seq<u8>,
    /// The identifier that the next SUBSCRIBE will carry.
    pub next_message_id: u8,
    /// The handler of each subscribed topic.
    pub publish_functions: Map<Seq<char>, H>,
}

impl<H: Fn(Vec<u8>) -> Option<Vec<u8>>> ClientView<H> {
    /// The invariant of a session: the identity fits its limits, identifiers
    /// start at 1, every pending identifier was issued before the next one
    /// and they stand in the order of issue, and every handler accepts every
    /// payload.
    pub open spec fn well_formed(self) -> bool {
        &&& 1 <= self.client_id.len() <= MAX_CLIENT_ID_LENGTH
        &&& 1 <= self.username.len() <= MAX_CREDENTIAL_LENGTH
        &&& 1 <= self.password.len() <= MAX_CREDENTIAL_LENGTH
        &&& self.next_message_id >= 1
        &&& forall|i: int|
            0 <= i < self.pending_subscribe_ids.len() ==> self.pending_subscribe_ids[i]
                < self.next_message_id
        &&& forall|i: int, j: int|
            0 <= i < j < self.pending_subscribe_ids.len() ==> self.pending_subscribe_ids[i]
                < self.pending_subscribe_ids[j]
        &&& forall|topic: Seq<char>, payload: Vec<u8>|
            self.publish_functions.contains_key(topic) ==> #[trigger] call_requires(
                self.publish_functions[topic],
                (payload,),
            )
    }
}

impl<H> View for Client<H> {
    type V = ClientView<H>;

    closed spec fn view(&self) -> ClientView<H> {
        ClientView {
            client_id: self.client_id@,
            username: self.username@,
            password: self.password@,
            connected: self.connected,
            keep_alive_secs: self.keep_alive_secs,
            pending_subscribe_ids: self.pending_subscribe_ids@,
            next_message_id: self.next_message_id,
            publish_functions: self.publish_functions@,
        }
    }
}

/// What a frame from the broker amounted to.
#[derive(Debug, PartialEq, Eq)]
pub enum Dispatch {
    /// A PINGRESP: the broker is alive, nothing to do.
    Alive,
    /// A SUBACK for the pending subscription with this identifier, which is
    /// now acknowledged.
    Subscribed(u8),
    /// A SUBACK that names no pending subscription.
    UnknownSuback,
    /// A PUBLISH: the packets to send in answer, in order.
    Published(Vec<Vec<u8>>),
    /// A packet that has no place in a running session.
    Unexpected,
    /// Not a packet that this client understands.
    Malformed(DecodeError),
}

/// The bytes of the CONNECT for an identity and a keep-alive interval in
/// seconds: protocol name "MQIsdp", level 3, a clean session with user name
/// and password and without a will.
pub open spec fn connect_bytes(
    client_id: Seq<u8>,
    username: Seq<u8>,
    password: Seq<u8>,
    keep_alive_secs: u8,
) -> Seq<u8> {
    seq![
        0x10u8,
        (18 + client_id.len() + username.len() + password.len()) as u8,
        0u8,
        6u8,
        0x4Du8,
        0x51u8,
        0x49u8,
        0x73u8,
        0x64u8,
        0x70u8,
        3u8,
        0xC2u8,
        0u8,
        keep_alive_secs,
        0u8,
        client_id.len() as u8,
    ] + client_id + seq![0u8, username.len() as u8] + username + seq![0u8, password.len() as u8]
        + password
}

/// The bytes of the SUBSCRIBE for a topic, given as bytes, with packet
/// identifier `id`, asking for quality of service 1: the first byte, the
/// encoded remaining length, the identifier, the topic with its length in
/// front, and the quality of service.
pub open spec fn subscribe_bytes(topic: Seq<u8>, id: u8) -> Seq<u8> {
    seq![0x82u8] + encoded_length(topic.len() + 5) + seq![0u8, id, 0u8, topic.len() as u8] + topic
        + seq![1u8]
}

/// The view of what a handler returned.
pub open spec fn reply_view(reply: Option<Vec<u8>>) -> Option<Seq<u8>> {
    match reply {
        Some(bytes) => Some(bytes@),
        None => None,
    }
}

/// The bytes of each packet of a list.
pub open spec fn packets(messages: Vec<Vec<u8>>) -> Seq<Seq<u8>> {
    messages@.map_values(|message: Vec<u8>| message@)
}

/// The packets that answer a PUBLISH: at quality of service 1 the PUBACK for
/// its identifier, then the handler's reply if it gave one.
pub open spec fn responses(id: Seq<u8>, qos: u8, reply: Option<Seq<u8>>) -> Seq<Seq<u8>> {
    (if qos == 1 {
        seq![puback_bytes(id)]
    } else {
        Seq::empty()
    }) + (match reply {
        Some(bytes) => seq![bytes],
        None => Seq::empty(),
    })
}

/// Whether `messages` answer a PUBLISH as the registry asks: if the topic has
/// a handler, `messages` are the answers for something that the handler
/// returns on the payload; if it has none, they are the answers without a
/// reply.
pub open spec fn answered<H: Fn(Vec<u8>) -> Option<Vec<u8>>>(
    handlers: Map<Seq<char>, H>,
    id: Seq<u8>,
    topic: Seq<char>,
    qos: u8,
    payload: Seq<u8>,
    messages: Vec<Vec<u8>>,
) -> bool {
    if handlers.contains_key(topic) {
        exists|given: Vec<u8>, reply: Option<Vec<u8>>|
            given@ == payload && #[trigger] call_ensures(handlers[topic], (given,), reply)
                && packets(messages) == responses(id, qos, reply_view(reply))
    } else {
        packets(messages) == responses(id, qos, None)
    }
}

/// `s` without the first occurrence of `x`.
pub open spec fn without_first(s: Seq<u8>, x: u8) -> Seq<u8>
    decreases s.len(),
{
    if s.len() == 0 {
        s
    } else if s[0] == x {
        s.skip(1)
    } else {
        seq![s[0]] + without_first(s.skip(1), x)
    }
}

/// The buffer for a frame whose first bytes are `header`: as long as the
/// fixed header and the remaining length together, holding the bytes of
/// `header` as far as they belong to the frame and zeros after them.
pub open spec fn frame_buffer(header: Seq<u8>) -> Seq<u8> {
    let consumed = length_end(header, 1) + 1;
    let total = consumed + decoded_length(header.subrange(1, consumed));
    if total <= header.len() {
        header.subrange(0, total)
    } else {
        header + Seq::new((total - header.len()) as nat, |i: int| 0u8)
    }
}

/// The CONNECT of an identity within its limits is at most 67 bytes long
/// and sizes itself: its second byte alone is the length field, and states
/// the number of bytes that follow it.
pub proof fn lemma_connect_length(
    client_id: Seq<u8>,
    username: Seq<u8>,
    password: Seq<u8>,
    keep_alive_secs: u8,
)
    requires
        client_id.len() <= MAX_CLIENT_ID_LENGTH,
        username.len() <= MAX_CREDENTIAL_LENGTH,
        password.len() <= MAX_CREDENTIAL_LENGTH,
    ensures
        connect_bytes(client_id, username, password, keep_alive_secs).len() == 20 + client_id.len()
            + username.len() + password.len(),
        connect_bytes(client_id, username, password, keep_alive_secs).len() <= 67,
        well_framed(connect_bytes(client_id, username, password, keep_alive_secs)),
        consumed(connect_bytes(client_id, username, password, keep_alive_secs)) == 2,
        remaining_length(connect_bytes(client_id, username, password, keep_alive_secs)) == 18
            + client_id.len() + username.len() + password.len(),
{
    let packet = connect_bytes(client_id, username, password, keep_alive_secs);
    let body = packet.subrange(2, packet.len() as int);
    let n = (18 + client_id.len() + username.len() + password.len()) as nat;
    assert(body.len() == n);
    assert(encoded_length(n / 128) =~= Seq::<u8>::empty());
    assert(encoded_length(n) =~= seq![n as u8]);
    lemma_well_framed(0x10u8, body);
    assert(packet =~= seq![0x10u8] + encoded_length(n) + body);
}

/// The SUBSCRIBE for a topic of up to `MAX_TOPIC_LENGTH` bytes sizes itself:
/// its header states the number of bytes that follow it, which is the topic
/// and five bytes more.
pub proof fn lemma_subscribe_length(topic: Seq<u8>, id: u8)
    requires
        topic.len() <= MAX_TOPIC_LENGTH,
    ensures
        well_framed(subscribe_bytes(topic, id)),
        remaining_length(subscribe_bytes(topic, id)) == topic.len() + 5,
        subscribe_bytes(topic, id).len() == consumed(subscribe_bytes(topic, id)) + topic.len() + 5,
        subscribe_bytes(topic, id)[consumed(subscribe_bytes(topic, id)) + 1] == id,
{
    let body = seq![0u8, id, 0u8, topic.len() as u8] + topic + seq![1u8];
    lemma_well_framed(0x82u8, body);
    assert(subscribe_bytes(topic, id) =~= seq![0x82u8] + encoded_length(body.len()) + body);
}

/// Removing the element at the first occurrence is what `without_first`
/// does.
pub proof fn lemma_without_first_at(s: Seq<u8>, x: u8, at: int)
    requires
        0 <= at < s.len(),
        s[at] == x,
        forall|j: int| 0 <= j < at ==> s[j] != x,
    ensures
        without_first(s, x) == s.remove(at),
    decreases at,
{
    if at == 0 {
        assert(s.skip(1) =~= s.remove(0));
    } else {
        let tail = s.skip(1);
        assert forall|j: int| 0 <= j < at - 1 implies tail[j] != x by {
            assert(tail[j] == s[j + 1]);
        }
        lemma_without_first_at(tail, x, at - 1);
        assert(seq![s[0]] + tail.remove(at - 1) =~= s.remove(at));
    }
}

/// Taking the first occurrence of `x` out of a sequence that holds it keeps
/// every other element in its place or one place earlier.
pub proof fn lemma_without_first_present(s: Seq<u8>, x: u8) -> (at: int)
    requires
        s.contains(x),
    ensures
        0 <= at < s.len(),
        s[at] == x,
        forall|j: int| 0 <= j < at ==> s[j] != x,
        without_first(s, x) == s.remove(at),
    decreases s.len(),
{
    if s[0] == x {
        lemma_without_first_at(s, x, 0);
        0
    } else {
        let tail = s.skip(1);
        let k = choose|k: int| 0 <= k < s.len() && s[k] == x;
        assert(tail[k - 1] == x);
        let at = lemma_without_first_present(tail, x);
        assert forall|j: int| 0 <= j < at + 1 implies s[j] != x by {
            if j > 0 {
                assert(tail[j - 1] == s[j]);
            }
        }
        lemma_without_first_at(s, x, at + 1);
        at + 1
    }
}

/// A sequence that does not hold `x` is its own `without_first`.
pub proof fn lemma_without_first_absent(s: Seq<u8>, x: u8)
    requires
        !s.contains(x),
    ensures
        without_first(s, x) == s,
    decreases s.len(),
{
    if s.len() > 0 {
        let tail = s.skip(1);
        assert(s[0] != x);
        assert forall|j: int| 0 <= j < tail.len() implies tail[j] != x by {
            assert(tail[j] == s[j + 1]);
        }
        lemma_without_first_absent(tail, x);
        assert(seq![s[0]] + tail =~= s);
    }
}

/// Acknowledging the subscription that was made last undoes what it did to
/// the pending identifiers: recording an identifier that was not pending and
/// then taking it out again leaves them as they were.
pub proof fn lemma_suback_undoes_subscribe(pending: Seq<u8>, id: u8)
    requires
        !pending.contains(id),
    ensures
        without_first(pending.push(id), id) == pending,
{
    let recorded = pending.push(id);
    assert forall|j: int| 0 <= j < pending.len() implies recorded[j] != id by {
        assert(pending[j] == recorded[j]);
        assert(pending.contains(pending[j]));
    }
    lemma_without_first_at(recorded, id, pending.len() as int);
    assert(recorded.remove(pending.len() as int) =~= pending);
}

/// A PUBACK is sent exactly at quality of service 1, whatever the handler
/// did: at quality of service 1 the answer starts with the PUBACK for the
/// identifier, and at any other the answer is the handler's reply alone, or
/// nothing.
pub proof fn lemma_puback_exactly_at_qos_one(id: Seq<u8>, qos: u8, reply: Option<Seq<u8>>)
    ensures
        qos == 1 ==> responses(id, qos, reply).len() >= 1 && responses(id, qos, reply)[0]
            == puback_bytes(id),
        qos == 1 ==> responses(id, qos, None) == seq![puback_bytes(id)],
        qos != 1 ==> responses(id, qos, None) == Seq::<Seq<u8>>::empty(),
        qos != 1 ==> (reply matches Some(bytes) ==> responses(id, qos, reply) == seq![bytes]),
{
    assert(responses(id, qos, None) =~= if qos == 1 {
        seq![puback_bytes(id)]
    } else {
        Seq::empty()
    });
    if let Some(bytes) = reply {
        if qos != 1 {
            assert(responses(id, qos, reply) =~= seq![bytes]);
        }
    }
}

/// Takes the acknowledged identifier, the fourth byte of `suback`, out of the
/// pending identifiers. Returns whether it was pending.
pub fn handle_suback(suback: &[u8], pending_subscribe_ids: &mut Vec<u8>) -> (known: bool)
    requires
        suback.len() >= 4,
    ensures
        known == old(pending_subscribe_ids)@.contains(suback@[3]),
        final(pending_subscribe_ids)@ == without_first(old(pending_subscribe_ids)@, suback@[3]),
{
    let id = suback[3];
    let mut pos: usize = 0;
    while pos < pending_subscribe_ids.len()
        invariant
            pos <= pending_subscribe_ids.len(),
            suback.len() >= 4,
            id == suback@[3],
            pending_subscribe_ids@ == old(pending_subscribe_ids)@,
            forall|j: int| 0 <= j < pos ==> pending_subscribe_ids@[j] != id,
        decreases pending_subscribe_ids.len() - pos,
    {
        if pending_subscribe_ids[pos] == id {
            proof {
                lemma_without_first_at(pending_subscribe_ids@, id, pos as int);
                assert(pending_subscribe_ids@[pos as int] == id);
            }
            pending_subscribe_ids.remove(pos);
            return true;
        }
        pos += 1;
    }
    proof {
        lemma_without_first_absent(pending_subscribe_ids@, id);
    }
    false
}

/// The packets that answer a PUBLISH with packet identifier `id` at quality
/// of service `qos`, given what the topic's handler returned.
pub fn publish_responses(id: &[u8], qos: u8, reply: Option<Vec<u8>>) -> (messages: Vec<Vec<u8>>)
    requires
        qos == 1 ==> id.len() >= 2,
    ensures
        packets(messages) == responses(id@, qos, reply_view(reply)),
{
    let mut messages: Vec<Vec<u8>> = Vec::with_capacity(2);
    if qos == 1 {
        messages.push(make_puback(id));
    }
    if let Some(response) = reply {
        messages.push(response);
    }
    assert(packets(messages) =~= responses(id@, qos, reply_view(reply)));
    messages
}

/// Answers a PUBLISH: hands the payload to the topic's handler, if there is
/// one, and returns the packets to send.
pub fn handle_publish<H: Fn(Vec<u8>) -> Option<Vec<u8>>>(
    id: &[u8],
    topic: &str,
    qos: u8,
    payload: Vec<u8>,
    f: Option<&H>,
) -> (messages: Vec<Vec<u8>>)
    requires
        qos == 1 ==> id.len() >= 2,
        f matches Some(handler) ==> call_requires(*handler, (payload,)),
    ensures
        f is None ==> packets(messages) == responses(id@, qos, None),
        f matches Some(handler) ==> exists|reply: Option<Vec<u8>>|
            call_ensures(*handler, (payload,), reply) && packets(messages) == responses(
                id@,
                qos,
                reply_view(reply),
            ),
        qos == 1 ==> messages.len() >= 1 && messages[0]@ == puback_bytes(id@),
        qos != 1 ==> messages.len() <= 1,
{
    let reply = match f {
        Some(handler) => handler(payload),
        None => None,
    };
    let messages = publish_responses(id, qos, reply);
    proof {
        lemma_puback_exactly_at_qos_one(id@, qos, reply_view(reply));
        assert(packets(messages).len() == messages.len());
        if qos == 1 {
            assert(packets(messages)[0] == messages[0]@);
        }
    }
    messages
}

/// Sizes the buffer for a frame from the first bytes read of it. Returns
/// `None` when `header` holds no complete length field of at most four bytes
/// after its first byte. Otherwise the buffer is as long as the whole frame
/// and starts with the bytes of `header` that belong to it; the caller reads
/// the rest of the frame into what follows them.
pub fn begin_frame(header: &[u8]) -> (r: Option<Vec<u8>>)
    ensures
        r is Some <==> has_length(header@),
        r matches Some(buf) ==> buf@ == frame_buffer(header@),
{
    match checked_decode_length(header) {
        None => None,
        Some((len, bytes_read)) => {
            let mut buf: Vec<u8> = Vec::with_capacity(bytes_read + len);
            buf.extend_from_slice(header);
            assert(buf@ =~= header@);
            buf.resize(bytes_read + len, 0);
            assert(buf@ =~= frame_buffer(header@));
            Some(buf)
        },
    }
}

impl<H: Fn(Vec<u8>) -> Option<Vec<u8>>> Client<H> {
    /// A disconnected session for an identity and a keep-alive interval in
    /// seconds, with no subscription yet.
    pub fn new(client_id: &str, username: &str, password: &str, keep_alive_secs: u8) -> (client:
        Self)
        requires
            1 <= client_id.spec_bytes().len() <= MAX_CLIENT_ID_LENGTH,
            1 <= username.spec_bytes().len() <= MAX_CREDENTIAL_LENGTH,
            1 <= password.spec_bytes().len() <= MAX_CREDENTIAL_LENGTH,
        ensures
            client@.well_formed(),
            client@ == (ClientView::<H> {
                client_id: client_id.spec_bytes(),
                username: username.spec_bytes(),
                password: password.spec_bytes(),
                connected: false,
                keep_alive_secs,
                pending_subscribe_ids: Seq::empty(),
                next_message_id: 1,
                publish_functions: Map::empty(),
            }),
    {
        Client {
            client_id: slice_to_vec(client_id.as_bytes()),
            username: slice_to_vec(username.as_bytes()),
            password: slice_to_vec(password.as_bytes()),
            connected: false,
            keep_alive_secs,
            pending_subscribe_ids: Vec::new(),
            next_message_id: 1,
            publish_functions: StringHashMap::new(),
        }
    }

    /// Builds the CONNECT packet of this session.
    pub fn make_connect(&self) -> (connect_msg: Vec<u8>)
        requires
            self@.well_formed(),
        ensures
            connect_msg@ == connect_bytes(
                self@.client_id,
                self@.username,
                self@.password,
                self@.keep_alive_secs,
            ),
            well_framed(connect_msg@),
            remaining_length(connect_msg@) == connect_msg.len() - 2,
    {
        proof {
            lemma_connect_length(
                self@.client_id,
                self@.username,
                self@.password,
                self@.keep_alive_secs,
            );
        }
        let client_id_len = self.client_id.len() as u8;
        let username_len = self.username.len() as u8;
        let password_len = self.password.len() as u8;
        let len: u8 = 20 + client_id_len + username_len + password_len;

        let mut connect_msg: Vec<u8> = Vec::with_capacity(len as usize);
        connect_msg.push(0x10);  // CONNECT
        connect_msg.push(len - 2);  // remaining length: all but these two bytes
        connect_msg.push(0);  // protocol name length
        connect_msg.push(6);
        connect_msg.push(0x4D);  // "MQIsdp"
        connect_msg.push(0x51);
        connect_msg.push(0x49);
        connect_msg.push(0x73);
        connect_msg.push(0x64);
        connect_msg.push(0x70);
        connect_msg.push(3);  // protocol level
        connect_msg.push(0xC2);  // user name, password, clean session
        connect_msg.push(0);  // keep alive
        connect_msg.push(self.keep_alive_secs);
        connect_msg.push(0);  // client id length
        connect_msg.push(client_id_len);
        connect_msg.extend_from_slice(self.client_id.as_slice());

        // no will topic or will message
        connect_msg.push(0);  // user name length
        connect_msg.push(username_len);
        connect_msg.extend_from_slice(self.username.as_slice());

        connect_msg.push(0);  // password length
        connect_msg.push(password_len);
        connect_msg.extend_from_slice(self.password.as_slice());

        assert(connect_msg@ =~= connect_bytes(
            self@.client_id,
            self@.username,
            self@.password,
            self@.keep_alive_secs,
        ));
        connect_msg
    }

    /// Builds the SUBSCRIBE packet for `topic` with the next packet
    /// identifier, and moves on to the identifier after it.
    pub fn make_subscribe(&mut self, topic: &str) -> (subscribe_msg: Vec<u8>)
        requires
            old(self)@.well_formed(),
            topic.spec_bytes().len() <= MAX_TOPIC_LENGTH,
            old(self)@.next_message_id < 255,
        ensures
            subscribe_msg@ == subscribe_bytes(topic.spec_bytes(), old(self)@.next_message_id),
            well_framed(subscribe_msg@),
            remaining_length(subscribe_msg@) == topic.spec_bytes().len() + 5,
            final(self)@ == (ClientView {
                next_message_id: (old(self)@.next_message_id + 1) as u8,
                ..old(self)@
            }),
            final(self)@.well_formed(),
    {
        proof {
            lemma_subscribe_length(topic.spec_bytes(), self@.next_message_id);
        }
        let topic_len = topic.len();
        let len = topic_len + 5;  // packet identifier, topic length, topic, quality of service
        let mut len_bytes = encode_length(len);

        let mut subscribe_msg: Vec<u8> = Vec::with_capacity(len + 5);
        subscribe_msg.push(0x82);  // SUBSCRIBE
        subscribe_msg.append(&mut len_bytes);
        subscribe_msg.push(0);  // packet identifier
        subscribe_msg.push(self.next_message_id);
        subscribe_msg.push(0);  // topic length
        subscribe_msg.push(topic_len as u8);
        subscribe_msg.extend_from_slice(topic.as_bytes());
        subscribe_msg.push(1);  // quality of service 1

        self.next_message_id += 1;

        assert(subscribe_msg@ =~= subscribe_bytes(
            topic.spec_bytes(),
            old(self)@.next_message_id,
        ));
        subscribe_msg
    }

    /// Completes the handshake: `reply` is what the broker answered to the
    /// CONNECT. The session is connected if that is the accepting CONNACK,
    /// and stays as it was otherwise.
    pub fn connect(&mut self, reply: &[u8]) -> (r: Result<(), ClientError>)
        requires
            old(self)@.well_formed(),
        ensures
            final(self)@.well_formed(),
            reply@ == CONNACK@ ==> r == Ok::<(), ClientError>(()) && final(self)@ == (ClientView {
                connected: true,
                ..old(self)@
            }),
            reply@ != CONNACK@ ==> r == Err::<(), ClientError>(ClientError::UnexpectedMessage)
                && final(self)@ == old(self)@,
    {
        match parse_slice(reply) {
            Ok(Message::Connack) => {
                self.connected = true;
                Ok(())
            },
            _ => Err(ClientError::UnexpectedMessage),
        }
    }

    /// Subscribes to `topic`: registers `f` as its handler, and, if the
    /// session is connected, records the packet identifier as pending and
    /// returns the SUBSCRIBE packet to send. The handler is registered and
    /// the identifier is used up also when the session is not connected.
    pub fn subscribe(&mut self, topic: &str, f: H) -> (r: Result<Vec<u8>, ClientError>)
        requires
            old(self)@.well_formed(),
            topic.spec_bytes().len() <= MAX_TOPIC_LENGTH,
            old(self)@.next_message_id < 255,
            forall|payload: Vec<u8>| call_requires(f, (payload,)),
        ensures
            final(self)@.well_formed(),
            final(self)@ == (ClientView {
                next_message_id: (old(self)@.next_message_id + 1) as u8,
                publish_functions: old(self)@.publish_functions.insert(topic@, f),
                pending_subscribe_ids: if old(self)@.connected {
                    old(self)@.pending_subscribe_ids.push(old(self)@.next_message_id)
                } else {
                    old(self)@.pending_subscribe_ids
                },
                ..old(self)@
            }),
            old(self)@.connected ==> (r matches Ok(sub_msg) && sub_msg@ == subscribe_bytes(
                topic.spec_bytes(),
                old(self)@.next_message_id,
            ) && well_framed(sub_msg@) && remaining_length(sub_msg@) == topic.spec_bytes().len()
                + 5),
            !old(self)@.connected ==> r == Err::<Vec<u8>, ClientError>(ClientError::NotConnected),
            !old(self)@.pending_subscribe_ids.contains(old(self)@.next_message_id),
    {
        let id = self.next_message_id;
        let sub_msg = self.make_subscribe(topic);

        self.publish_functions.insert(topic.to_owned(), f);

        if !self.connected {
            return Err(ClientError::NotConnected);
        }
        self.pending_subscribe_ids.push(id);

        Ok(sub_msg)
    }

    /// Ends the session and returns the DISCONNECT packet to send.
    pub fn disconnect(&mut self) -> (msg: Vec<u8>)
        requires
            old(self)@.well_formed(),
            old(self)@.connected,
        ensures
            final(self)@.well_formed(),
            final(self)@ == (ClientView { connected: false, ..old(self)@ }),
            msg@ == DISCONNECT@,
            well_framed(msg@),
    {
        proof {
            lemma_fixed_packets_framed();
        }
        self.connected = false;
        slice_to_vec(&DISCONNECT)
    }

    /// Builds the PUBLISH packet to send for `payload` on `topic`, at
    /// quality of service 0. The session does not change.
    pub fn publish(&mut self, topic: &str, payload: &str) -> (r: Result<Vec<u8>, ClientError>)
        requires
            old(self)@.well_formed(),
            topic.spec_bytes().len() <= MAX_TOPIC_LENGTH,
            topic.spec_bytes().len() + payload.spec_bytes().len() + 2 <= usize::MAX,
        ensures
            final(self)@ == old(self)@,
            old(self)@.connected ==> (r matches Ok(msg) && msg@ == publish_bytes(
                topic.spec_bytes(),
                payload.spec_bytes(),
            ) && (topic.spec_bytes().len() + payload.spec_bytes().len() + 2
                <= MAX_REMAINING_LENGTH ==> well_framed(msg@))),
            !old(self)@.connected ==> r == Err::<Vec<u8>, ClientError>(ClientError::NotConnected),
    {
        let msg = make_publish(topic, payload);
        if !self.connected {
            return Err(ClientError::NotConnected);
        }
        Ok(msg)
    }

    /// Takes one frame from the broker and acts on it: a PINGRESP is
    /// dropped, a SUBACK takes its identifier out of the pending ones, and a
    /// PUBLISH goes to the handler of its topic and is acknowledged at
    /// quality of service 1. Whatever else arrives changes nothing and is
    /// reported.
    pub fn handle_frame(&mut self, frame: &[u8]) -> (r: Dispatch)
        requires
            old(self)@.well_formed(),
        ensures
            final(self)@.well_formed(),
            match parsed(frame@) {
                Err(e) => r == Dispatch::Malformed(e) && final(self)@ == old(self)@,
                Ok(MessageView::Pingresp) => r == Dispatch::Alive && final(self)@ == old(self)@,
                Ok(MessageView::Connack) => r == Dispatch::Unexpected && final(self)@ == old(self)@,
                Ok(MessageView::Suback(token)) => {
                    let pending = old(self)@.pending_subscribe_ids;
                    if token.len() >= 4 && pending.contains(token[3]) {
                        &&& r == Dispatch::Subscribed(token[3])
                        &&& final(self)@ == (ClientView {
                            pending_subscribe_ids: without_first(pending, token[3]),
                            ..old(self)@
                        })
                        &&& !final(self)@.pending_subscribe_ids.contains(token[3])
                    } else {
                        r == Dispatch::UnknownSuback && final(self)@ == old(self)@
                    }
                },
                Ok(MessageView::Publish { id, topic, qos, payload }) => {
                    &&& final(self)@ == old(self)@
                    &&& r matches Dispatch::Published(messages)
                    &&& answered(old(self)@.publish_functions, id, topic, qos, payload, messages)
                    &&& qos == 1 ==> messages.len() >= 1 && messages[0]@ == puback_bytes(id)
                    &&& qos != 1 ==> messages.len() <= 1
                },
            },
    {
        match parse_slice(frame) {
            Ok(message) => match message {
                Message::Pingresp => Dispatch::Alive,
                Message::Suback(msg) => {
                    if msg.len() < 4 {
                        return Dispatch::UnknownSuback;
                    }
                    let ghost before = self.pending_subscribe_ids@;
                    if handle_suback(msg.as_slice(), &mut self.pending_subscribe_ids) {
                        proof {
                            let at = lemma_without_first_present(before, msg@[3]);
                            let after = self.pending_subscribe_ids@;
                            assert forall|i: int| 0 <= i < after.len() implies after[i]
                                != msg@[3] by {
                                if i < at {
                                    assert(after[i] == before[i]);
                                } else {
                                    assert(after[i] == before[i + 1]);
                                }
                            }
                        }
                        Dispatch::Subscribed(msg[3])
                    } else {
                        proof {
                            lemma_without_first_absent(before, msg@[3]);
                        }
                        Dispatch::UnknownSuback
                    }
                },
                Message::Publish { id, topic, qos, payload } => {
                    proof {
                        lemma_parsed_publish_shape(frame@);
                    }
                    let handler = self.publish_functions.get(topic.as_str());
                    let messages = handle_publish(
                        id.as_slice(),
                        topic.as_str(),
                        qos,
                        payload,
                        handler,
                    );
                    Dispatch::Published(messages)
                },
                _ => Dispatch::Unexpected,
            },
            Err(e) => Dispatch::Malformed(e),
        }
    }

    /// Whether the session is connected.
    pub fn is_connected(&self) -> (connected: bool)
        ensures
            connected == self@.connected,
    {
        self.connected
    }

    /// The keep-alive interval in seconds: how long the pinger waits
    /// between two PINGREQ packets.
    pub fn keep_alive_secs(&self) -> (secs: u8)
        ensures
            secs == self@.keep_alive_secs,
    {
        self.keep_alive_secs
    }

    /// The read timeout of the stream in seconds: twice the keep-alive
    /// interval.
    pub fn read_timeout_secs(&self) -> (secs: u64)
        ensures
            secs == 2 * self@.keep_alive_secs,
    {
        self.keep_alive_secs as u64 * 2
    }

    /// The packet identifier that the next SUBSCRIBE will carry.
    pub fn next_message_id(&self) -> (id: u8)
        ensures
            id == self@.next_message_id,
    {
        self.next_message_id
    }

    /// The identifiers of the subscriptions that await their SUBACK, oldest
    /// first.
    pub fn pending_subscribe_ids(&self) -> (ids: &[u8])
        ensures
            ids@ == self@.pending_subscribe_ids,
    {
        self.pending_subscribe_ids.as_slice()
    }
}

} // verus!
