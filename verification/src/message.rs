//! The packet codec: builders for the packets a client sends and a parser
//! for the packets a broker sends.

use crate::length::{
    checked_decode_length, decoded_length, encode_length, encoded_length, has_length, length_end,
    lemma_length_end, lemma_length_round_trip, lemma_well_framed, lemma_zero_length_defaults,
    remaining_length, well_framed, MAX_REMAINING_LENGTH,
};
use std::string::FromUtf8Error;
use vstd::prelude::*;
use vstd::slice::slice_to_vec;
use vstd::string::{StringExecFns, StringSliceAdditionalSpecFns};
use vstd::utf8::{
    decode_utf8, encode_utf8, encode_utf8_decode_utf8, encode_utf8_valid_utf8, valid_utf8,
};

verus! {

/// The acknowledgement of a CONNECT that the broker accepted.
pub const CONNACK: [u8; 4] = [0x20, 2, 0, 0];

/// The packet that ends a session.
pub const DISCONNECT: [u8; 2] = [0xE0, 0];

/// The keep-alive request.
pub const PINGREQ: [u8; 2] = [0xC0, 0];

/// The broker's answer to a keep-alive request.
pub const PINGRESP: [u8; 2] = [0xD0, 0];

/// Longest topic, in bytes, that the builders accept.
pub const MAX_TOPIC_LENGTH: usize = 127;

/// A packet received from the broker.
#[derive(Debug, PartialEq, Eq)]
pub enum Message {
    Pingresp,
    Connack,
    Publish { id: Vec<u8>, topic: String, qos: u8, payload: Vec<u8> },
    Suback(Vec<u8>),
}

/// What a `Message` holds, as mathematical values.
pub enum MessageView {
    Pingresp,
    Connack,
    Publish { id: Seq<u8>, topic: Seq<char>, qos: u8, payload: Seq<u8> },
    Suback(Seq<u8>),
}

impl View for Message {
    type V = MessageView;

    open spec fn view(&self) -> MessageView {
        match self {
            Message::Pingresp => MessageView::Pingresp,
            Message::Connack => MessageView::Connack,
            Message::Publish { id, topic, qos, payload } => MessageView::Publish {
                id: id@,
                topic: topic@,
                qos: *qos,
                payload: payload@,
            },
            Message::Suback(token) => MessageView::Suback(token@),
        }
    }
}

/// Why a buffer is not a packet that this client understands.
#[derive(Clone, Copy, Debug, PartialEq, Eq, Structural)]
pub enum DecodeError {
    /// The buffer ends before the packet does.
    TooShort,
    /// A CONNACK or PINGRESP that differs from the one expected form.
    ProtocolError,
    /// The packet type is none of CONNACK, PUBLISH, SUBACK, PINGRESP.
    UnknownType,
    /// A PUBLISH with quality of service 2.
    UnsupportedQos,
    /// A PUBLISH whose quality-of-service bits are both set.
    InvalidQos,
    /// A remaining-length field of more than four bytes.
    LengthTooLarge,
    /// A PUBLISH whose topic is not UTF-8.
    Utf8Error,
    /// A PUBLISH whose remaining length is zero.
    EmptyPublish,
}

impl DecodeError {
    /// What went wrong, in words.
    pub open spec fn text(self) -> Seq<char> {
        match self {
            DecodeError::TooShort => "Message too short to be valid"@,
            DecodeError::ProtocolError => "Acknowledgement differs from the expected bytes"@,
            DecodeError::UnknownType => "Unrecognized message type"@,
            DecodeError::UnsupportedQos => "Can't handle PUBLISH QoS 2"@,
            DecodeError::InvalidQos => "Unexpected QoS value"@,
            DecodeError::LengthTooLarge => "Remaining length too large"@,
            DecodeError::Utf8Error => "Topic is not valid UTF-8"@,
            DecodeError::EmptyPublish => "Empty publish"@,
        }
    }

    /// What went wrong, in words.
    pub fn message(&self) -> (text: &'static str)
        ensures
            text@ == self.text(),
    {
        match self {
            DecodeError::TooShort => "Message too short to be valid",
            DecodeError::ProtocolError => "Acknowledgement differs from the expected bytes",
            DecodeError::UnknownType => "Unrecognized message type",
            DecodeError::UnsupportedQos => "Can't handle PUBLISH QoS 2",
            DecodeError::InvalidQos => "Unexpected QoS value",
            DecodeError::LengthTooLarge => "Remaining length too large",
            DecodeError::Utf8Error => "Topic is not valid UTF-8",
            DecodeError::EmptyPublish => "Empty publish",
        }
    }
}

/// The view of a parse result.
pub open spec fn result_view(r: Result<Message, DecodeError>) -> Result<MessageView, DecodeError> {
    match r {
        Ok(message) => Ok(message@),
        Err(e) => Err(e),
    }
}

/// The packet type: the high four bits of the first byte.
pub open spec fn packet_type(first: u8) -> int {
    first as int / 16
}

/// The quality-of-service bits of a PUBLISH: bits 1 and 2 of its first byte.
pub open spec fn qos_bits(first: u8) -> int {
    (first as int / 2) % 4
}

/// The big-endian 16-bit number at `at`.
pub open spec fn be16(s: Seq<u8>, at: int) -> int {
    s[at] as int * 256 + s[at + 1] as int
}

/// What a buffer that starts a PUBLISH parses to.
///
/// After the first byte comes the remaining-length field, then the topic
/// with its two-byte length in front, then, at quality of service 1 only, a
/// two-byte packet identifier, and the payload takes the rest of the buffer.
pub open spec fn parsed_publish(s: Seq<u8>) -> Result<MessageView, DecodeError> {
    if s.len() == 0 {
        Err(DecodeError::TooShort)
    } else if qos_bits(s[0]) == 2 {
        Err(DecodeError::UnsupportedQos)
    } else if qos_bits(s[0]) == 3 {
        Err(DecodeError::InvalidQos)
    } else if !has_length(s) {
        if s.len() >= 5 {
            Err(DecodeError::LengthTooLarge)
        } else {
            Err(DecodeError::TooShort)
        }
    } else {
        let offset = length_end(s, 1) + 1;
        let with_id = qos_bits(s[0]) == 1;
        if decoded_length(s.subrange(1, offset)) == 0 {
            Err(DecodeError::EmptyPublish)
        } else if s.len() < offset + 2 {
            Err(DecodeError::TooShort)
        } else {
            let topic_end = offset + 2 + be16(s, offset);
            if s.len() < topic_end {
                Err(DecodeError::TooShort)
            } else if !valid_utf8(s.subrange(offset + 2, topic_end)) {
                Err(DecodeError::Utf8Error)
            } else if with_id && s.len() < topic_end + 2 {
                Err(DecodeError::TooShort)
            } else {
                Ok(
                    MessageView::Publish {
                        id: if with_id {
                            s.subrange(topic_end, topic_end + 2)
                        } else {
                            Seq::empty()
                        },
                        topic: decode_utf8(s.subrange(offset + 2, topic_end)),
                        qos: if with_id {
                            1
                        } else {
                            0
                        },
                        payload: s.subrange(
                            if with_id {
                                topic_end + 2
                            } else {
                                topic_end
                            },
                            s.len() as int,
                        ),
                    },
                )
            }
        }
    }
}

/// What a buffer parses to.
pub open spec fn parsed(s: Seq<u8>) -> Result<MessageView, DecodeError> {
    if s.len() < 2 {
        Err(DecodeError::TooShort)
    } else if packet_type(s[0]) == 2 {
        if s == CONNACK@ {
            Ok(MessageView::Connack)
        } else {
            Err(DecodeError::ProtocolError)
        }
    } else if packet_type(s[0]) == 3 {
        parsed_publish(s)
    } else if packet_type(s[0]) == 9 {
        Ok(MessageView::Suback(s))
    } else if packet_type(s[0]) == 13 {
        if s == PINGRESP@ {
            Ok(MessageView::Pingresp)
        } else {
            Err(DecodeError::ProtocolError)
        }
    } else {
        Err(DecodeError::UnknownType)
    }
}

/// The bytes of a PUBLISH at quality of service 0 for a topic and a payload,
/// both given as bytes.
pub open spec fn publish_bytes(topic: Seq<u8>, payload: Seq<u8>) -> Seq<u8> {
    seq![0x30u8] + encoded_length(topic.len() + payload.len() + 2) + seq![0u8, topic.len() as u8]
        + topic + payload
}

/// The bytes of the PUBACK for a packet identifier.
pub open spec fn puback_bytes(id: Seq<u8>) -> Seq<u8> {
    seq![0x40u8, 2u8, id[0], id[1]]
}

/// A PUBLISH that parses at all has quality of service 0 or 1, and carries a
/// two-byte packet identifier at 1 and none at 0.
pub proof fn lemma_parsed_publish_shape(s: Seq<u8>)
    ensures
        parsed_publish(s) matches Ok(m) ==> {
            &&& m matches MessageView::Publish { id, qos, .. }
            &&& qos == 0 || qos == 1
            &&& qos == 1 ==> id.len() == 2
            &&& qos == 0 ==> id.len() == 0
        },
{
    if s.len() > 0 {
        lemma_length_end(s, 1);
    }
}

/// Parsing undoes building: the PUBLISH built for a topic of at most
/// `MAX_TOPIC_LENGTH` bytes and a payload, with a remaining length of at most
/// `MAX_REMAINING_LENGTH`, parses to that topic and that payload, at quality
/// of service 0 and without a packet identifier.
pub proof fn lemma_publish_round_trip(topic: Seq<char>, payload: Seq<u8>)
    requires
        encode_utf8(topic).len() <= MAX_TOPIC_LENGTH,
        encode_utf8(topic).len() + payload.len() + 2 <= MAX_REMAINING_LENGTH,
    ensures
        parsed(publish_bytes(encode_utf8(topic), payload)) == Ok::<MessageView, DecodeError>(
            MessageView::Publish { id: Seq::empty(), topic, qos: 0, payload },
        ),
{
    let name = encode_utf8(topic);
    let n = name.len() + payload.len() + 2;
    let field = encoded_length(n);
    let rest = seq![0u8, name.len() as u8] + name + payload;
    let s = publish_bytes(name, payload);
    assert(s =~= seq![0x30u8] + field + rest);
    lemma_length_round_trip(0x30u8, n, rest);
    let offset = length_end(s, 1) + 1;
    assert(offset == field.len() + 1);
    assert(s[offset] == 0u8);
    assert(s[offset + 1] == name.len() as u8);
    assert(be16(s, offset) == name.len());
    let topic_end = offset + 2 + name.len();
    assert(s.subrange(offset + 2, topic_end) =~= name);
    assert(s.subrange(topic_end, s.len() as int) =~= payload);
    encode_utf8_valid_utf8(topic);
    encode_utf8_decode_utf8(topic);
}

/// A PUBLISH with a remaining length of at most `MAX_REMAINING_LENGTH` sizes
/// itself: its header states the number of bytes that follow it, which is
/// the topic with its two length bytes and the payload.
pub proof fn lemma_publish_framed(topic: Seq<u8>, payload: Seq<u8>)
    requires
        topic.len() + payload.len() + 2 <= MAX_REMAINING_LENGTH,
    ensures
        well_framed(publish_bytes(topic, payload)),
        remaining_length(publish_bytes(topic, payload)) == topic.len() + payload.len() + 2,
{
    let body = seq![0u8, topic.len() as u8] + topic + payload;
    lemma_well_framed(0x30u8, body);
    assert(publish_bytes(topic, payload) =~= seq![0x30u8] + encoded_length(body.len()) + body);
}

/// A PUBACK sizes itself: its header states the two bytes of the packet
/// identifier.
pub proof fn lemma_puback_framed(id: Seq<u8>)
    ensures
        well_framed(puback_bytes(id)),
        remaining_length(puback_bytes(id)) == 2,
{
    let body = seq![id[0], id[1]];
    lemma_well_framed(0x40u8, body);
    assert(encoded_length(0) =~= Seq::<u8>::empty());
    assert(encoded_length(2) =~= seq![2u8]);
    assert(puback_bytes(id) =~= seq![0x40u8] + encoded_length(body.len()) + body);
}

/// The four packets of fixed content size themselves.
pub proof fn lemma_fixed_packets_framed()
    ensures
        well_framed(CONNACK@) && remaining_length(CONNACK@) == 2,
        well_framed(DISCONNECT@) && remaining_length(DISCONNECT@) == 0,
        well_framed(PINGREQ@) && remaining_length(PINGREQ@) == 0,
        well_framed(PINGRESP@) && remaining_length(PINGRESP@) == 0,
{
    lemma_well_framed(0x20u8, seq![0u8, 0u8]);
    assert(encoded_length(0) =~= Seq::<u8>::empty());
    assert(encoded_length(2) =~= seq![2u8]);
    assert(CONNACK@ =~= seq![0x20u8] + encoded_length(2) + seq![0u8, 0u8]);
    lemma_zero_length_defaults(0xE0u8, seq![0u8]);
    assert(DISCONNECT@ =~= seq![0xE0u8] + encoded_length(0) + seq![0u8]);
    lemma_zero_length_defaults(0xC0u8, seq![0u8]);
    assert(PINGREQ@ =~= seq![0xC0u8] + encoded_length(0) + seq![0u8]);
    lemma_zero_length_defaults(0xD0u8, seq![0u8]);
    assert(PINGRESP@ =~= seq![0xD0u8] + encoded_length(0) + seq![0u8]);
}

/// The accepted CONNACK and the PINGRESP parse to their messages.
pub proof fn lemma_parsed_acknowledgements()
    ensures
        parsed(CONNACK@) == Ok::<MessageView, DecodeError>(MessageView::Connack),
        parsed(PINGRESP@) == Ok::<MessageView, DecodeError>(MessageView::Pingresp),
{
}

/// A CONNACK in which one byte after the first was changed is a protocol
/// error.
pub proof fn lemma_connack_mutation(at: int, byte: u8)
    requires
        1 <= at < 4,
        byte != CONNACK@[at],
    ensures
        parsed(CONNACK@.update(at, byte)) == Err::<MessageView, DecodeError>(
            DecodeError::ProtocolError,
        ),
{
    assert(CONNACK@.update(at, byte)[at] != CONNACK@[at]);
}

/// A PINGRESP whose second byte was changed is a protocol error.
pub proof fn lemma_pingresp_mutation(byte: u8)
    requires
        byte != 0,
    ensures
        parsed(PINGRESP@.update(1, byte)) == Err::<MessageView, DecodeError>(
            DecodeError::ProtocolError,
        ),
{
    assert(PINGRESP@.update(1, byte)[1] != PINGRESP@[1]);
}

/// A buffer of fewer than two bytes is too short, and one whose packet type
/// is none of the four that a broker sends to this client is of unknown type.
pub proof fn lemma_malformed_rejected(s: Seq<u8>)
    ensures
        s.len() < 2 ==> parsed(s) == Err::<MessageView, DecodeError>(DecodeError::TooShort),
        s.len() >= 2 && packet_type(s[0]) != 2 && packet_type(s[0]) != 3 && packet_type(s[0]) != 9
            && packet_type(s[0]) != 13 ==> parsed(s) == Err::<MessageView, DecodeError>(
            DecodeError::UnknownType,
        ),
{
}

/// Whether two byte strings hold the same bytes.
pub fn same_bytes(a: &[u8], b: &[u8]) -> (same: bool)
    ensures
        same == (a@ == b@),
{
    if a.len() != b.len() {
        return false;
    }
    let mut i: usize = 0;
    while i < a.len()
        invariant
            i <= a.len(),
            a.len() == b.len(),
            forall|j: int| 0 <= j < i ==> a@[j] == b@[j],
        decreases a.len() - i,
    {
        if a[i] != b[i] {
            return false;
        }
        i += 1;
    }
    assert(a@ =~= b@);
    true
}

/// Whether `msg` is the DISCONNECT packet, after which the writer shuts the
/// stream down.
pub fn is_disconnect(msg: &[u8]) -> (b: bool)
    ensures
        b == (msg@ == DISCONNECT@),
{
    same_bytes(msg, &DISCONNECT)
}

/// The error of `String::from_utf8`, carried through unopened.
#[verifier::external_type_specification]
#[verifier::external_body]
pub struct ExFromUtf8Error(FromUtf8Error);

/// Calls `String::from_utf8`. Taken on trust from its documentation: it
/// returns `Ok` exactly when the bytes are well-formed UTF-8, and the string
/// is then made of those bytes, so its characters are the ones they encode.
#[verifier::external_body]
fn string_from_utf8(bytes: Vec<u8>) -> (r: Result<String, FromUtf8Error>)
    ensures
        r is Ok <==> valid_utf8(bytes@),
        r matches Ok(s) ==> s@ == decode_utf8(bytes@),
{
    String::from_utf8(bytes)
}

/// The character of the decimal digit `d`.
pub open spec fn digit_char(d: nat) -> char {
    (48 + d) as char
}

/// The decimal numeral of `n`.
pub open spec fn decimal(n: nat) -> Seq<char>
    decreases n,
{
    if n < 10 {
        seq![digit_char(n)]
    } else {
        decimal(n / 10).push(digit_char(n % 10))
    }
}

/// The line that names a message in a log: its kind, then the topic of a
/// PUBLISH, or the low byte of the packet identifier of a SUBACK.
pub open spec fn description(message: MessageView) -> Seq<char> {
    match message {
        MessageView::Pingresp => "PINGRESP"@,
        MessageView::Connack => "CONNACK"@,
        MessageView::Publish { topic, .. } => "PUBLISH "@ + topic,
        MessageView::Suback(token) => "SUBACK "@ + decimal(token[3] as nat),
    }
}

/// The numeral of one decimal digit.
fn digit(d: u8) -> (s: &'static str)
    requires
        d < 10,
    ensures
        s@ == seq![digit_char(d as nat)],
{
    proof {
        reveal_strlit("0");
        reveal_strlit("1");
        reveal_strlit("2");
        reveal_strlit("3");
        reveal_strlit("4");
        reveal_strlit("5");
        reveal_strlit("6");
        reveal_strlit("7");
        reveal_strlit("8");
        reveal_strlit("9");
    }
    let s = match d {
        0 => "0",
        1 => "1",
        2 => "2",
        3 => "3",
        4 => "4",
        5 => "5",
        6 => "6",
        7 => "7",
        8 => "8",
        _ => "9",
    };
    assert(s@ =~= seq![digit_char(d as nat)]);
    s
}

/// Appends the decimal numeral of `n` to `text`.
fn push_decimal(text: &mut String, n: u8)
    ensures
        final(text)@ == old(text)@ + decimal(n as nat),
{
    if n >= 100 {
        text.append(digit(n / 100));
    }
    if n >= 10 {
        text.append(digit((n / 10) % 10));
    }
    text.append(digit(n % 10));
    proof {
        reveal_with_fuel(decimal, 3);
        assert(text@ =~= old(text)@ + decimal(n as nat));
    }
}

impl Message {
    /// The line that names this message in a log.
    pub fn describe(&self) -> (text: String)
        requires
            self matches Message::Suback(token) ==> token.len() >= 4,
        ensures
            text@ == description(self@),
    {
        match self {
            Message::Pingresp => "PINGRESP".to_owned(),
            Message::Connack => "CONNACK".to_owned(),
            Message::Publish { topic, .. } => "PUBLISH ".to_owned().concat(topic.as_str()),
            Message::Suback(msg) => {
                let mut text = "SUBACK ".to_owned();
                push_decimal(&mut text, msg[3]);
                text
            },
        }
    }
}

/// Parses one packet from the broker.
pub fn parse_slice(msg: &[u8]) -> (r: Result<Message, DecodeError>)
    ensures
        result_view(r) == parsed(msg@),
{
    if msg.len() < 2 {
        return Err(DecodeError::TooShort);
    }
    let first = msg[0];
    assert(first >> 4 == first / 16) by (bit_vector);
    match first >> 4 {
        2 => {
            if !same_bytes(msg, &CONNACK) {
                return Err(DecodeError::ProtocolError);
            }
            Ok(Message::Connack)
        },
        3 => parse_publish(msg),
        9 => Ok(Message::Suback(slice_to_vec(msg))),
        13 => {
            if !same_bytes(msg, &PINGRESP) {
                return Err(DecodeError::ProtocolError);
            }
            Ok(Message::Pingresp)
        },
        _ => Err(DecodeError::UnknownType),
    }
}

/// Parses a PUBLISH packet.
pub fn parse_publish(publish: &[u8]) -> (r: Result<Message, DecodeError>)
    ensures
        result_view(r) == parsed_publish(publish@),
{
    if publish.len() == 0 {
        return Err(DecodeError::TooShort);
    }
    let first = publish[0];
    assert(first & 6 == 0 <==> (first / 2) % 4 == 0) by (bit_vector);
    assert(first & 6 == 2 <==> (first / 2) % 4 == 1) by (bit_vector);
    assert(first & 6 == 4 <==> (first / 2) % 4 == 2) by (bit_vector);
    let qos: u8 = match first & 6 {
        0 => 0,
        2 => 1,
        4 => return Err(DecodeError::UnsupportedQos),
        _ => return Err(DecodeError::InvalidQos),
    };

    let (len, offset) = match checked_decode_length(publish) {
        Some(found) => found,
        None => {
            if publish.len() >= 5 {
                return Err(DecodeError::LengthTooLarge);
            }
            return Err(DecodeError::TooShort);
        },
    };
    if len == 0 {
        return Err(DecodeError::EmptyPublish);
    }
    if publish.len() - offset < 2 {
        return Err(DecodeError::TooShort);
    }
    let topic_len: usize = publish[offset] as usize * 256 + publish[offset + 1] as usize;
    if publish.len() - (offset + 2) < topic_len {
        return Err(DecodeError::TooShort);
    }
    let topic = match string_from_utf8(slice_to_vec(&publish[offset + 2..topic_len + offset + 2])) {
        Ok(topic) => topic,
        Err(_) => return Err(DecodeError::Utf8Error),
    };

    let mut payload_offset: usize = topic_len + offset + 2;
    let mut id: Vec<u8> = Vec::new();
    if qos == 1 {
        if publish.len() - payload_offset < 2 {
            return Err(DecodeError::TooShort);
        }
        id = slice_to_vec(&publish[payload_offset..payload_offset + 2]);
        payload_offset += 2;  // message ID after topic
    }
    let payload = slice_to_vec(&publish[payload_offset..publish.len()]);

    Ok(Message::Publish { id, topic, qos, payload })
}

/// Builds a PUBLISH at quality of service 0. The remaining length is written
/// with as many bytes as it takes; up to `MAX_REMAINING_LENGTH`, which is
/// four bytes, the packet sizes itself.
pub fn make_publish(topic: &str, payload: &str) -> (msg: Vec<u8>)
    requires
        topic.spec_bytes().len() <= MAX_TOPIC_LENGTH,
        topic.spec_bytes().len() + payload.spec_bytes().len() + 2 <= usize::MAX,
    ensures
        msg@ == publish_bytes(topic.spec_bytes(), payload.spec_bytes()),
        topic.spec_bytes().len() + payload.spec_bytes().len() + 2 <= MAX_REMAINING_LENGTH ==> {
            &&& well_framed(msg@)
            &&& remaining_length(msg@) == topic.spec_bytes().len() + payload.spec_bytes().len() + 2
        },
{
    proof {
        if topic.spec_bytes().len() + payload.spec_bytes().len() + 2 <= MAX_REMAINING_LENGTH {
            lemma_publish_framed(topic.spec_bytes(), payload.spec_bytes());
        }
    }
    let topic_len = topic.len();
    let len = topic_len + payload.len() + 2;
    let topic_len = topic_len as u8;
    let mut len_bytes = encode_length(len);

    let mut msg: Vec<u8> = vec![0x30];
    msg.append(&mut len_bytes);
    msg.push(0);
    msg.push(topic_len);
    msg.extend_from_slice(topic.as_bytes());
    msg.extend_from_slice(payload.as_bytes());
    assert(msg@ =~= publish_bytes(topic.spec_bytes(), payload.spec_bytes()));
    msg
}

/// Builds the PUBACK that answers a PUBLISH with packet identifier `msg_id`.
pub fn make_puback(msg_id: &[u8]) -> (msg: Vec<u8>)
    requires
        msg_id.len() >= 2,
    ensures
        msg@ == puback_bytes(msg_id@),
        well_framed(msg@),
        remaining_length(msg@) == 2,
{
    proof {
        lemma_puback_framed(msg_id@);
    }
    let msg = vec![0x40, 2, msg_id[0], msg_id[1]];
    assert(msg@ =~= puback_bytes(msg_id@));
    msg
}

} // verus!
