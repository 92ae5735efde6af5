//! The control packets and their wire form.

use vstd::prelude::*;
use vstd::slice::slice_subrange;
use vstd::utf8::{encode_utf8, is_ascii_chars, is_ascii_chars_encode_utf8};
use crate::error::{DecodeError, EncodeError};
use crate::frame::{
    lemma_split_built_frame, lemma_split_frames, lemma_split_two_frames, spec_frame,
    spec_header, spec_is_frame, spec_split_frame, spec_split_stream, split_frame,
};
pub use crate::varint::encode_variable_int;
use crate::varint::{spec_encode_variable_int, MAX_VARIABLE_INT};

verus! {

/// The longest client identifier that every broker accepts.
pub const MAX_CLIENT_ID_LEN: usize = 23;

/// The longest byte string that a two-byte length prefix can state.
pub const MAX_PREFIXED_LEN: usize = 65535;

/// Whether `c` is an ASCII letter or digit.
pub open spec fn spec_is_ascii_alphanumeric(c: char) -> bool {
    ('0' <= c <= '9') || ('A' <= c <= 'Z') || ('a' <= c <= 'z')
}

/// Whether a client identifier may be sent: absent, or one to 23 ASCII
/// letters and digits.
pub open spec fn spec_client_id_valid(client_id: Option<Seq<char>>) -> bool {
    match client_id {
        None => true,
        Some(id) => {
            &&& 1 <= id.len() <= MAX_CLIENT_ID_LEN
            &&& forall|i: int| 0 <= i < id.len() ==> spec_is_ascii_alphanumeric(#[trigger] id[i])
        },
    }
}

fn is_alphanumeric_byte(byte: u8) -> (result: bool)
    ensures
        result == spec_is_ascii_alphanumeric(byte as char),
{
    (0x30 <= byte && byte <= 0x39) || (0x41 <= byte && byte <= 0x5A) || (0x61 <= byte && byte
        <= 0x7A)
}

/// Whether a client identifier may be sent: absent, or one to 23 ASCII
/// letters and digits.
pub fn client_id_valid(client_id: &Option<String>) -> (valid: bool)
    ensures
        valid == spec_client_id_valid(client_id.deep_view()),
{
    let id: &String = match client_id {
        Some(id) => id,
        None => {
            return true;
        },
    };
    let text: &str = id.as_str();
    if !text.is_ascii() {
        return false;
    }
    let bytes: &[u8] = text.as_bytes();
    let len: usize = bytes.len();
    if len == 0 || len > MAX_CLIENT_ID_LEN {
        return false;
    }
    let mut index: usize = 0;
    while index < len
        invariant
            index <= len,
            client_id.deep_view() == Some(text@),
            1 <= len <= MAX_CLIENT_ID_LEN,
            len == bytes@.len(),
            len == text@.len(),
            is_ascii_chars(text@),
            forall|i: int| 0 <= i < len ==> bytes@[i] == #[trigger] text@[i] as u8,
            forall|i: int| 0 <= i < index ==> spec_is_ascii_alphanumeric(#[trigger] text@[i]),
        decreases len - index,
    {
        let byte: u8 = bytes[index];
        assert(byte == text@[index as int] as u8);
        if !is_alphanumeric_byte(byte) {
            return false;
        }
        index = index + 1;
    }
    true
}

/// The type id of a CONNECT packet, the upper half of its first byte.
pub const CONNECT_TYPE_ID: u8 = 1;

/// The type id of a CONNACK packet.
pub const CONNACK_TYPE_ID: u8 = 2;

/// The type id of a SUBSCRIBE packet.
pub const SUBSCRIBE_TYPE_ID: u8 = 8;

/// The flags in the lower half of a SUBSCRIBE packet's first byte, which the
/// protocol fixes.
pub const SUBSCRIBE_FLAGS: u8 = 0b0010;

/// The first byte of a CONNECT packet: the type id in the upper half, no flags.
pub const CONNECT_FIRST_BYTE: u8 = CONNECT_TYPE_ID * 16;

/// The first byte of a CONNACK packet: the type id in the upper half, no flags.
pub const CONNACK_FIRST_BYTE: u8 = CONNACK_TYPE_ID * 16;

/// The first byte of a SUBSCRIBE packet: the type id in the upper half, the
/// fixed flags in the lower.
pub const SUBSCRIBE_FIRST_BYTE: u8 = SUBSCRIBE_TYPE_ID * 16 + SUBSCRIBE_FLAGS;

/// The protocol level of MQTT 3.1.1.
pub const PROTOCOL_LEVEL: u8 = 4;

/// The connect flags that are sent: "clean session" and nothing else.
pub const CONNECT_FLAGS: u8 = 0b0000_0010;

/// The packet identifier that every SUBSCRIBE packet carries.
pub const SUBSCRIBE_PACKET_ID: u16 = 1;

/// The options byte that follows every topic filter.
pub const SUBSCRIBE_OPTIONS: u8 = 2;

/// Quality of service of a delivery.
#[derive(Debug, Copy, Clone, PartialEq, Eq)]
pub enum Qos {
    ZERO,
    ONE,
    TWO,
}

/// What the broker answered to a CONNECT.
#[derive(Debug, Copy, Clone, PartialEq, Eq)]
pub enum ConnackReturnCode {
    Accepted,
    UnacceptableProtocolVersion,
    IdentifierRejected,
    ServerUnavailable,
    BadCredentials,
    NotAuthorized,
    Unknown(u8),
}

/// The return code that the byte `code` stands for.
pub open spec fn spec_return_code(code: u8) -> ConnackReturnCode {
    if code == 0 {
        ConnackReturnCode::Accepted
    } else if code == 1 {
        ConnackReturnCode::UnacceptableProtocolVersion
    } else if code == 2 {
        ConnackReturnCode::IdentifierRejected
    } else if code == 3 {
        ConnackReturnCode::ServerUnavailable
    } else if code == 4 {
        ConnackReturnCode::BadCredentials
    } else if code == 5 {
        ConnackReturnCode::NotAuthorized
    } else {
        ConnackReturnCode::Unknown(code)
    }
}

impl ConnackReturnCode {
    /// The byte that stands for this return code on the wire.
    pub open spec fn spec_code(self) -> u8 {
        match self {
            ConnackReturnCode::Accepted => 0,
            ConnackReturnCode::UnacceptableProtocolVersion => 1,
            ConnackReturnCode::IdentifierRejected => 2,
            ConnackReturnCode::ServerUnavailable => 3,
            ConnackReturnCode::BadCredentials => 4,
            ConnackReturnCode::NotAuthorized => 5,
            ConnackReturnCode::Unknown(code) => code,
        }
    }

    /// The return code that the byte `code` stands for. Every byte stands for
    /// one: those above 5 for `Unknown`.
    pub fn from_code(code: u8) -> (return_code: Self)
        ensures
            return_code == spec_return_code(code),
    {
        match code {
            0 => ConnackReturnCode::Accepted,
            1 => ConnackReturnCode::UnacceptableProtocolVersion,
            2 => ConnackReturnCode::IdentifierRejected,
            3 => ConnackReturnCode::ServerUnavailable,
            4 => ConnackReturnCode::BadCredentials,
            5 => ConnackReturnCode::NotAuthorized,
            x => ConnackReturnCode::Unknown(x),
        }
    }

    /// The byte that stands for this return code on the wire.
    pub fn code(&self) -> (code: u8)
        ensures
            code == self.spec_code(),
    {
        match self {
            ConnackReturnCode::Accepted => 0,
            ConnackReturnCode::UnacceptableProtocolVersion => 1,
            ConnackReturnCode::IdentifierRejected => 2,
            ConnackReturnCode::ServerUnavailable => 3,
            ConnackReturnCode::BadCredentials => 4,
            ConnackReturnCode::NotAuthorized => 5,
            ConnackReturnCode::Unknown(code) => *code,
        }
    }
}

/// The two bytes of `value`, the more significant one first.
pub open spec fn spec_be16(value: u16) -> Seq<u8> {
    seq![(value / 256) as u8, (value % 256) as u8]
}

/// `data` behind the two bytes that state its length.
pub open spec fn spec_length_prefixed(data: Seq<u8>) -> Seq<u8> {
    spec_be16(data.len() as u16) + data
}

fn push_be16(out: &mut Vec<u8>, value: u16)
    ensures
        final(out)@ == old(out)@ + spec_be16(value),
{
    out.push((value / 256) as u8);
    out.push((value % 256) as u8);
}

fn push_length_prefixed(out: &mut Vec<u8>, data: &[u8])
    requires
        data@.len() <= MAX_PREFIXED_LEN,
    ensures
        final(out)@ == old(out)@ + spec_length_prefixed(data@),
{
    push_be16(out, data.len() as u16);
    out.extend_from_slice(data);
}

/// Puts a first byte, the length of `tail` and `tail` itself together.
fn build_frame(first: u8, tail: Vec<u8>) -> (result: Result<Vec<u8>, EncodeError>)
    ensures
        match result {
            Ok(bytes) => tail@.len() <= MAX_VARIABLE_INT && bytes@ == spec_frame(first, tail@),
            Err(e) => tail@.len() > MAX_VARIABLE_INT && e == EncodeError::ValueTooLarge,
        },
{
    let mut tail = tail;
    let mut remaining_length_encoded: Vec<u8> = match encode_variable_int(tail.len()) {
        Ok(bytes) => bytes,
        Err(e) => {
            return Err(e);
        },
    };
    let mut packet_bytes: Vec<u8> = Vec::new();
    packet_bytes.push(first);
    packet_bytes.append(&mut remaining_length_encoded);
    packet_bytes.append(&mut tail);
    Ok(packet_bytes)
}

/// The request to open a session. The username and the password are carried
/// but not sent.
#[derive(Debug)]
pub struct ConnectPacket {
    pub client_id: Option<String>,
    pub username: Option<String>,
    pub password: Option<String>,
    pub keep_alive: u16,
}

/// A `ConnectPacket` as plain values.
pub struct ConnectPacketView {
    pub client_id: Option<Seq<char>>,
    pub username: Option<Seq<char>>,
    pub password: Option<Seq<char>>,
    pub keep_alive: u16,
}

impl View for ConnectPacket {
    type V = ConnectPacketView;

    open spec fn view(&self) -> ConnectPacketView {
        ConnectPacketView {
            client_id: self.client_id.deep_view(),
            username: self.username.deep_view(),
            password: self.password.deep_view(),
            keep_alive: self.keep_alive,
        }
    }
}

/// The name of the protocol, "MQTT", as bytes.
pub open spec fn spec_protocol_name() -> Seq<u8> {
    seq![0x4Du8, 0x51u8, 0x54u8, 0x54u8]
}

/// The bytes of the client identifier that is sent: none for an absent one.
pub open spec fn spec_client_id_bytes(client_id: Option<Seq<char>>) -> Seq<u8> {
    match client_id {
        Some(id) => encode_utf8(id),
        None => Seq::empty(),
    }
}

/// Variable header and payload of a CONNECT packet: the protocol name behind
/// its length, the protocol level, the connect flags, the keep-alive interval
/// and the client identifier behind its length.
pub open spec fn spec_connect_tail(packet: ConnectPacketView) -> Seq<u8> {
    spec_length_prefixed(spec_protocol_name()) + seq![PROTOCOL_LEVEL, CONNECT_FLAGS] + spec_be16(
        packet.keep_alive,
    ) + spec_length_prefixed(spec_client_id_bytes(packet.client_id))
}

/// The wire form of a CONNECT packet, which an invalid client identifier
/// forbids.
pub open spec fn spec_encode_connect(packet: ConnectPacketView) -> Result<Seq<u8>, EncodeError> {
    if spec_client_id_valid(packet.client_id) {
        Ok(spec_frame(CONNECT_FIRST_BYTE, spec_connect_tail(packet)))
    } else {
        Err(EncodeError::InvalidClientId)
    }
}

/// A valid client identifier is sent as one byte for each of its characters.
pub proof fn lemma_client_id_bytes(client_id: Option<Seq<char>>)
    requires
        spec_client_id_valid(client_id),
    ensures
        spec_client_id_bytes(client_id).len() <= MAX_CLIENT_ID_LEN,
        client_id matches Some(id) ==> spec_client_id_bytes(client_id).len() == id.len(),
{
    if let Some(id) = client_id {
        is_ascii_chars_encode_utf8(id);
    }
}

fn create_connect_packet_tail(packet: &ConnectPacket) -> (bytes: Vec<u8>)
    requires
        spec_client_id_bytes(packet@.client_id).len() <= MAX_PREFIXED_LEN,
    ensures
        bytes@ == spec_connect_tail(packet@),
        bytes@.len() == 12 + spec_client_id_bytes(packet@.client_id).len(),
{
    let mut bytes: Vec<u8> = Vec::new();

    // Variable header: protocol name, protocol level, connect flags, keep alive.
    let protocol_name: [u8; 4] = [0x4D, 0x51, 0x54, 0x54];
    push_length_prefixed(&mut bytes, protocol_name.as_slice());
    bytes.push(PROTOCOL_LEVEL);
    bytes.push(CONNECT_FLAGS);
    push_be16(&mut bytes, packet.keep_alive);

    // Payload: the client identifier.
    match &packet.client_id {
        Some(id) => {
            push_length_prefixed(&mut bytes, id.as_str().as_bytes());
        },
        None => {
            push_be16(&mut bytes, 0);
        },
    }
    bytes
}

impl ConnectPacket {
    /// The wire form of this packet, or `InvalidClientId`.
    pub fn bytes(&self) -> (result: Result<Vec<u8>, EncodeError>)
        ensures
            match result {
                Ok(bytes) => spec_encode_connect(self@) == Ok::<Seq<u8>, EncodeError>(bytes@),
                Err(e) => spec_encode_connect(self@) == Err::<Seq<u8>, EncodeError>(e),
            },
    {
        if !client_id_valid(&self.client_id) {
            return Err(EncodeError::InvalidClientId);
        }
        proof {
            lemma_connect_tail_len(self@);
        }
        let tail: Vec<u8> = create_connect_packet_tail(self);
        build_frame(CONNECT_FIRST_BYTE, tail)
    }
}

/// The tail of a CONNECT packet with a valid client identifier has 12 bytes
/// and those of the identifier.
pub proof fn lemma_connect_tail_len(packet: ConnectPacketView)
    requires
        spec_client_id_valid(packet.client_id),
    ensures
        spec_connect_tail(packet).len() == 12 + spec_client_id_bytes(packet.client_id).len(),
        spec_connect_tail(packet).len() <= 12 + MAX_CLIENT_ID_LEN,
{
    lemma_client_id_bytes(packet.client_id);
}

/// The broker's answer to a CONNECT.
#[derive(Debug, Copy, Clone, PartialEq, Eq)]
pub struct ConnackPacket {
    pub flags: u8,
    pub return_code: ConnackReturnCode,
}

/// The body of a CONNACK packet: the flags, then the return code.
pub open spec fn spec_connack_tail(packet: ConnackPacket) -> Seq<u8> {
    seq![packet.flags, packet.return_code.spec_code()]
}

/// The wire form of a CONNACK packet.
pub open spec fn spec_encode_connack(packet: ConnackPacket) -> Seq<u8> {
    spec_frame(CONNACK_FIRST_BYTE, spec_connack_tail(packet))
}

/// Reads the body of a CONNACK packet: the first byte is the flags, the
/// second the return code, and what follows them is not looked at.
pub open spec fn spec_decode_connack(body: Seq<u8>) -> Result<ConnackPacket, DecodeError> {
    if body.len() < 2 {
        Err(DecodeError::ShortBody)
    } else {
        Ok(ConnackPacket { flags: body[0], return_code: spec_return_code(body[1]) })
    }
}

impl ConnackPacket {
    /// The wire form of this packet: four bytes.
    pub fn bytes(&self) -> (bytes: Vec<u8>)
        ensures
            bytes@ == spec_encode_connack(*self),
    {
        let mut bytes: Vec<u8> = Vec::new();
        bytes.push(CONNACK_FIRST_BYTE);
        bytes.push(2);
        bytes.push(self.flags);
        bytes.push(self.return_code.code());
        bytes
    }

    /// Reads the body of a CONNACK packet. A return code that has no name is
    /// kept as `Unknown`; only a body of fewer than two bytes is refused.
    pub fn decode(tail: &[u8]) -> (result: Result<ConnackPacket, DecodeError>)
        ensures
            result == spec_decode_connack(tail@),
    {
        if tail.len() < 2 {
            return Err(DecodeError::ShortBody);
        }
        let flag_byte: u8 = tail[0];
        let return_code_byte: u8 = tail[1];
        Ok(
            ConnackPacket {
                flags: flag_byte,
                return_code: ConnackReturnCode::from_code(return_code_byte),
            },
        )
    }
}

/// One topic filter to subscribe to.
#[derive(Debug, Clone)]
pub struct Subscription {
    pub topic: String,
}

impl View for Subscription {
    type V = Seq<char>;

    open spec fn view(&self) -> Seq<char> {
        self.topic@
    }
}

/// The request to subscribe to topic filters, in the order given.
#[derive(Debug)]
pub struct SubscribePacket {
    pub subscriptions: Vec<Subscription>,
}

impl View for SubscribePacket {
    type V = Seq<Seq<char>>;

    open spec fn view(&self) -> Seq<Seq<char>> {
        self.subscriptions@.map_values(|subscription: Subscription| subscription@)
    }
}

/// Whether the length prefix can state the length of `topic`.
pub open spec fn spec_topic_fits(topic: Seq<char>) -> bool {
    encode_utf8(topic).len() <= MAX_PREFIXED_LEN
}

/// What one subscription adds to the payload: the topic filter behind its
/// length, then the options byte.
pub open spec fn spec_subscription_entry(topic: Seq<char>) -> Seq<u8> {
    spec_length_prefixed(encode_utf8(topic)) + seq![SUBSCRIBE_OPTIONS]
}

/// The payload of a SUBSCRIBE packet: the entries of its topics, in order.
pub open spec fn spec_subscribe_payload(topics: Seq<Seq<char>>) -> Seq<u8>
    decreases topics.len(),
{
    if topics.len() == 0 {
        Seq::empty()
    } else {
        spec_subscribe_payload(topics.drop_last()) + spec_subscription_entry(topics.last())
    }
}

/// Variable header and payload of a SUBSCRIBE packet: the packet identifier,
/// then the payload.
pub open spec fn spec_subscribe_tail(topics: Seq<Seq<char>>) -> Seq<u8> {
    spec_be16(SUBSCRIBE_PACKET_ID) + spec_subscribe_payload(topics)
}

/// The wire form of a SUBSCRIBE packet. A topic that its length prefix cannot
/// state forbids it, and so does a tail that the remaining-length field cannot
/// state.
pub open spec fn spec_encode_subscribe(topics: Seq<Seq<char>>) -> Result<Seq<u8>, EncodeError> {
    if exists|i: int| 0 <= i < topics.len() && !spec_topic_fits(#[trigger] topics[i]) {
        Err(EncodeError::TopicTooLong)
    } else if spec_subscribe_tail(topics).len() > MAX_VARIABLE_INT {
        Err(EncodeError::ValueTooLarge)
    } else {
        Ok(spec_frame(SUBSCRIBE_FIRST_BYTE, spec_subscribe_tail(topics)))
    }
}

fn create_subscribe_packet_tail(subscriptions: &Vec<Subscription>) -> (result: Result<
    Vec<u8>,
    EncodeError,
>)
    ensures
        match result {
            Ok(bytes) => {
                let topics = subscriptions@.map_values(|s: Subscription| s@);
                &&& forall|i: int| 0 <= i < topics.len() ==> spec_topic_fits(#[trigger] topics[i])
                &&& bytes@ == spec_subscribe_tail(topics)
            },
            Err(e) => {
                let topics = subscriptions@.map_values(|s: Subscription| s@);
                &&& exists|i: int| 0 <= i < topics.len() && !spec_topic_fits(#[trigger] topics[i])
                &&& e == EncodeError::TopicTooLong
            },
        },
{
    let ghost topics = subscriptions@.map_values(|s: Subscription| s@);
    let mut bytes: Vec<u8> = Vec::new();

    // Variable header: the packet identifier.
    push_be16(&mut bytes, SUBSCRIBE_PACKET_ID);

    // Payload: one entry for each subscription.
    let count: usize = subscriptions.len();
    let mut index: usize = 0;
    while index < count
        invariant
            index <= count,
            count == subscriptions@.len(),
            topics == subscriptions@.map_values(|s: Subscription| s@),
            forall|i: int| 0 <= i < index ==> spec_topic_fits(#[trigger] topics[i]),
            bytes@ == spec_subscribe_tail(topics.take(index as int)),
        decreases count - index,
    {
        let subscription: &Subscription = &subscriptions[index];
        let topic: &[u8] = subscription.topic.as_str().as_bytes();
        if topic.len() > MAX_PREFIXED_LEN {
            return Err(EncodeError::TopicTooLong);
        }
        push_length_prefixed(&mut bytes, topic);
        bytes.push(SUBSCRIBE_OPTIONS);
        assert(topics.take(index as int + 1).drop_last() == topics.take(index as int));
        index = index + 1;
    }
    assert(topics.take(count as int) == topics);
    Ok(bytes)
}

impl SubscribePacket {
    /// The wire form of this packet, `TopicTooLong` when a topic is longer
    /// than 65535 bytes, else `ValueTooLarge` when the tail is longer than the
    /// remaining-length field can state.
    pub fn bytes(&self) -> (result: Result<Vec<u8>, EncodeError>)
        ensures
            match result {
                Ok(bytes) => spec_encode_subscribe(self@) == Ok::<Seq<u8>, EncodeError>(bytes@),
                Err(e) => spec_encode_subscribe(self@) == Err::<Seq<u8>, EncodeError>(e),
            },
    {
        let tail: Vec<u8> = match create_subscribe_packet_tail(&self.subscriptions) {
            Ok(tail) => tail,
            Err(e) => {
                return Err(e);
            },
        };
        build_frame(SUBSCRIBE_FIRST_BYTE, tail)
    }
}

/// A packet of a type that is not taken apart: its bytes as they were on the
/// wire, and the type id from the upper half of the first of them.
#[derive(Debug)]
pub struct UnknownPacket {
    type_id: u8,
    bytes: Vec<u8>,
}

/// The type id in a first byte: its upper four bits.
pub open spec fn spec_type_id(first: u8) -> u8 {
    first / 16
}

impl View for UnknownPacket {
    type V = Seq<u8>;

    closed spec fn view(&self) -> Seq<u8> {
        self.bytes@
    }
}

impl UnknownPacket {
    #[verifier::type_invariant]
    spec fn well_formed(&self) -> bool {
        &&& self.bytes@.len() > 0
        &&& self.type_id == spec_type_id(self.bytes@[0])
    }

    /// Keeps `bytes`, a packet's raw bytes from the first byte on.
    pub fn new(bytes: Vec<u8>) -> (packet: Self)
        requires
            bytes@.len() > 0,
        ensures
            packet@ == bytes@,
    {
        let first: u8 = bytes[0];
        let type_id: u8 = first >> 4;
        assert(type_id == first / 16) by (bit_vector)
            requires
                type_id == first >> 4,
        ;
        Self { type_id, bytes }
    }

    /// The packet's raw bytes.
    pub fn bytes(&self) -> (bytes: &Vec<u8>)
        ensures
            bytes@ == self@,
            bytes@.len() > 0,
    {
        proof {
            use_type_invariant(self);
        }
        &self.bytes
    }

    /// The packet's type id.
    pub fn type_id(&self) -> (type_id: u8)
        ensures
            self@.len() > 0,
            type_id == spec_type_id(self@[0]),
    {
        proof {
            use_type_invariant(self);
        }
        self.type_id
    }
}

/// A control packet.
#[derive(Debug)]
pub enum Packet {
    Connect(ConnectPacket),
    Connack(ConnackPacket),
    Subscribe(SubscribePacket),
    Unknown(UnknownPacket),
}

/// A `Packet` as plain values: of a SUBSCRIBE its topics, of an unknown
/// packet its raw bytes.
pub enum PacketView {
    Connect(ConnectPacketView),
    Connack(ConnackPacket),
    Subscribe(Seq<Seq<char>>),
    Unknown(Seq<u8>),
}

impl View for Packet {
    type V = PacketView;

    open spec fn view(&self) -> PacketView {
        match self {
            Packet::Connect(inner) => PacketView::Connect(inner@),
            Packet::Connack(inner) => PacketView::Connack(*inner),
            Packet::Subscribe(inner) => PacketView::Subscribe(inner@),
            Packet::Unknown(inner) => PacketView::Unknown(inner@),
        }
    }
}

/// The wire form of a packet: the fixed header, then variable header and
/// payload; of an unknown packet its raw bytes as they are.
pub open spec fn spec_encode_packet(packet: PacketView) -> Result<Seq<u8>, EncodeError> {
    match packet {
        PacketView::Connect(inner) => spec_encode_connect(inner),
        PacketView::Connack(inner) => Ok(spec_encode_connack(inner)),
        PacketView::Subscribe(topics) => spec_encode_subscribe(topics),
        PacketView::Unknown(bytes) => Ok(bytes),
    }
}

/// Reads a packet from its first byte and the body behind it, with no
/// remaining-length field between them. Type 2 is read as a CONNACK, from the
/// two bytes behind the first; any other type is kept as it is, as an unknown
/// packet. Only no bytes at all, and a CONNACK of fewer than two body bytes,
/// are refused.
pub open spec fn spec_decode_packet(bytes: Seq<u8>) -> Result<PacketView, DecodeError> {
    if bytes.len() == 0 {
        Err(DecodeError::Truncated)
    } else if spec_type_id(bytes[0]) == CONNACK_TYPE_ID {
        match spec_decode_connack(bytes.skip(1)) {
            Ok(inner) => Ok(PacketView::Connack(inner)),
            Err(e) => Err(e),
        }
    } else {
        Ok(PacketView::Unknown(bytes))
    }
}

/// Reads one frame as a packet. A frame of type 2 is read as a CONNACK, from
/// its body; one of any other type is kept as it is, header and all, as an
/// unknown packet. Bytes that are not exactly one frame are refused.
pub open spec fn spec_decode_frame(frame: Seq<u8>) -> Result<PacketView, DecodeError> {
    match spec_split_frame(frame) {
        Ok((first, body)) => if spec_type_id(first) == CONNACK_TYPE_ID {
            match spec_decode_connack(body) {
                Ok(inner) => Ok(PacketView::Connack(inner)),
                Err(e) => Err(e),
            }
        } else {
            Ok(PacketView::Unknown(frame))
        },
        Err(e) => Err(e),
    }
}

impl Packet {
    /// The wire form of this packet, or the reason why it has none.
    pub fn encode(&self) -> (result: Result<Vec<u8>, EncodeError>)
        ensures
            match result {
                Ok(bytes) => spec_encode_packet(self@) == Ok::<Seq<u8>, EncodeError>(bytes@),
                Err(e) => spec_encode_packet(self@) == Err::<Seq<u8>, EncodeError>(e),
            },
    {
        match self {
            Packet::Connect(inner) => inner.bytes(),
            Packet::Connack(inner) => Ok(inner.bytes()),
            Packet::Subscribe(inner) => inner.bytes(),
            Packet::Unknown(inner) => Ok(inner.bytes().clone()),
        }
    }

    /// Reads a packet from its first byte and the body behind it, with no
    /// remaining-length field between them.
    pub fn from_bytes(bytes: Vec<u8>) -> (result: Result<Packet, DecodeError>)
        ensures
            match result {
                Ok(packet) => spec_decode_packet(bytes@) == Ok::<PacketView, DecodeError>(
                    packet@,
                ),
                Err(e) => spec_decode_packet(bytes@) == Err::<PacketView, DecodeError>(e),
            },
    {
        let len: usize = bytes.len();
        if len == 0 {
            return Err(DecodeError::Truncated);
        }
        let first: u8 = bytes[0];
        let packet_type_id: u8 = first >> 4;
        assert(packet_type_id == first / 16) by (bit_vector)
            requires
                packet_type_id == first >> 4,
        ;
        if packet_type_id == CONNACK_TYPE_ID {
            let tail: &[u8] = slice_subrange(bytes.as_slice(), 1, len);
            match ConnackPacket::decode(tail) {
                Ok(inner) => Ok(Packet::Connack(inner)),
                Err(e) => Err(e),
            }
        } else {
            Ok(Packet::Unknown(UnknownPacket::new(bytes)))
        }
    }

    /// Reads one frame, as it stands on the wire, as a packet, or says why
    /// the bytes are not one.
    pub fn from_frame(frame: Vec<u8>) -> (result: Result<Packet, DecodeError>)
        ensures
            match result {
                Ok(packet) => spec_decode_frame(frame@) == Ok::<PacketView, DecodeError>(
                    packet@,
                ),
                Err(e) => spec_decode_frame(frame@) == Err::<PacketView, DecodeError>(e),
            },
    {
        let (first, tail) = match split_frame(frame.as_slice()) {
            Ok(parts) => parts,
            Err(e) => {
                return Err(e);
            },
        };
        let packet_type_id: u8 = first >> 4;
        assert(packet_type_id == first / 16) by (bit_vector)
            requires
                packet_type_id == first >> 4,
        ;
        if packet_type_id == CONNACK_TYPE_ID {
            match ConnackPacket::decode(tail) {
                Ok(inner) => Ok(Packet::Connack(inner)),
                Err(e) => Err(e),
            }
        } else {
            Ok(Packet::Unknown(UnknownPacket::new(frame)))
        }
    }
}

/// Reads a packet from its first byte and the body behind it, with no
/// remaining-length field between them.
pub fn decode(bytes: Vec<u8>) -> (result: Result<Packet, DecodeError>)
    ensures
        match result {
            Ok(packet) => spec_decode_packet(bytes@) == Ok::<PacketView, DecodeError>(packet@),
            Err(e) => spec_decode_packet(bytes@) == Err::<PacketView, DecodeError>(e),
        },
{
    Packet::from_bytes(bytes)
}

/// Whether a return code is the one that its own byte is read as: every
/// named code is, and `Unknown` with a byte that has no name.
pub open spec fn spec_is_canonical(return_code: ConnackReturnCode) -> bool {
    spec_return_code(return_code.spec_code()) == return_code
}

/// A CONNECT packet with a valid client identifier has a wire form. Its first
/// byte holds type id 1 and no flags. Its remaining-length field is one byte
/// and states the exact length of the tail, which is all that follows it.
pub proof fn lemma_connect_wire_form(packet: ConnectPacketView)
    requires
        spec_client_id_valid(packet.client_id),
    ensures
        spec_encode_connect(packet) matches Ok(bytes) && {
            &&& bytes =~= seq![CONNECT_FIRST_BYTE, spec_connect_tail(packet).len() as u8]
                + spec_connect_tail(packet)
            &&& spec_type_id(bytes[0]) == CONNECT_TYPE_ID
            &&& bytes[0] % 16 == 0
            &&& spec_header(bytes) == Ok::<(nat, nat), DecodeError>(
                (2, spec_connect_tail(packet).len()),
            )
            &&& spec_split_frame(bytes) == Ok::<(u8, Seq<u8>), DecodeError>(
                (CONNECT_FIRST_BYTE, spec_connect_tail(packet)),
            )
        },
{
    let tail = spec_connect_tail(packet);
    lemma_connect_tail_len(packet);
    lemma_split_built_frame(CONNECT_FIRST_BYTE, tail, Seq::empty());
}

/// A first byte of type 2 with `flags` and `code` behind it is read as a
/// CONNACK with those flags and the return code that `code` stands for,
/// whatever the two bytes are and whatever follows them: a code that has no
/// name is kept as `Unknown` and is no error.
pub proof fn lemma_decode_connack(first: u8, flags: u8, code: u8, rest: Seq<u8>)
    requires
        spec_type_id(first) == CONNACK_TYPE_ID,
    ensures
        spec_decode_packet(seq![first, flags, code] + rest) == Ok::<PacketView, DecodeError>(
            PacketView::Connack(ConnackPacket { flags, return_code: spec_return_code(code) }),
        ),
        code > 5 ==> spec_return_code(code) == ConnackReturnCode::Unknown(code),
        spec_return_code(0) == ConnackReturnCode::Accepted,
{
}

/// Bytes of any type but 2, one or more, are read as the unknown packet of
/// those bytes and are no error, and that packet's wire form is the same
/// bytes.
pub proof fn lemma_decode_keeps_unknown(bytes: Seq<u8>)
    requires
        bytes.len() >= 1,
        spec_type_id(bytes[0]) != CONNACK_TYPE_ID,
    ensures
        spec_decode_packet(bytes) == Ok::<PacketView, DecodeError>(PacketView::Unknown(bytes)),
        spec_encode_packet(PacketView::Unknown(bytes)) == Ok::<Seq<u8>, EncodeError>(bytes),
{
}

/// A frame of type 2 is read as its first byte with its body behind it is
/// read: the remaining-length field between them says nothing of the packet.
/// A frame of another type is kept whole.
pub proof fn lemma_decode_frame_by_parts(frame: Seq<u8>)
    requires
        spec_is_frame(frame),
    ensures
        spec_split_frame(frame) matches Ok((first, body)) && (if spec_type_id(first)
            == CONNACK_TYPE_ID {
            spec_decode_frame(frame) == spec_decode_packet(seq![first] + body)
        } else {
            spec_decode_frame(frame) == Ok::<PacketView, DecodeError>(PacketView::Unknown(frame))
        }),
{
}

/// The frame of type 2 whose body is `flags` and `code` is read as a CONNACK
/// with those flags and the return code that `code` stands for, whatever the
/// two bytes are: a code that has no name is kept as `Unknown` and is no
/// error.
pub proof fn lemma_decode_connack_frame(flags: u8, code: u8)
    ensures
        spec_decode_frame(spec_frame(CONNACK_FIRST_BYTE, seq![flags, code])) == Ok::<
            PacketView,
            DecodeError,
        >(PacketView::Connack(ConnackPacket { flags, return_code: spec_return_code(code) })),
        code > 5 ==> spec_return_code(code) == ConnackReturnCode::Unknown(code),
{
}

/// Reading a CONNACK packet back gives its flags, and its return code as the
/// byte that was sent for it is read: the packet itself when its return code
/// is canonical, as `Accepted` is. This holds of its wire form read as a
/// frame, and of its first byte with its body behind it read as such.
pub proof fn lemma_decode_encode_connack(packet: ConnackPacket)
    ensures
        spec_decode_frame(spec_encode_connack(packet)) == Ok::<PacketView, DecodeError>(
            PacketView::Connack(
                ConnackPacket {
                    flags: packet.flags,
                    return_code: spec_return_code(packet.return_code.spec_code()),
                },
            ),
        ),
        spec_decode_packet(seq![CONNACK_FIRST_BYTE] + spec_connack_tail(packet))
            == spec_decode_frame(spec_encode_connack(packet)),
        spec_is_canonical(packet.return_code) ==> spec_decode_frame(spec_encode_connack(packet))
            == Ok::<PacketView, DecodeError>(PacketView::Connack(packet)),
        spec_is_canonical(ConnackReturnCode::Accepted),
{
}

/// The first byte of a packet's wire form.
pub open spec fn spec_first_byte(packet: PacketView) -> u8 {
    match packet {
        PacketView::Connect(_) => CONNECT_FIRST_BYTE,
        PacketView::Connack(_) => CONNACK_FIRST_BYTE,
        PacketView::Subscribe(_) => SUBSCRIBE_FIRST_BYTE,
        PacketView::Unknown(bytes) => bytes[0],
    }
}

/// The wire form of a CONNECT, CONNACK or SUBSCRIBE packet is exactly one
/// frame, and starts with the byte that holds the type id of its kind (1, 2
/// or 8) in the upper half and its fixed flags (none, none, `0010`) in the
/// lower.
pub proof fn lemma_wire_form_is_frame(packet: PacketView)
    requires
        spec_encode_packet(packet) is Ok,
        !(packet is Unknown),
    ensures
        spec_is_frame(spec_encode_packet(packet)->Ok_0),
        spec_encode_packet(packet)->Ok_0[0] == spec_first_byte(packet),
        spec_type_id(spec_first_byte(packet)) == (match packet {
            PacketView::Connect(_) => CONNECT_TYPE_ID,
            PacketView::Connack(_) => CONNACK_TYPE_ID,
            _ => SUBSCRIBE_TYPE_ID,
        }),
        spec_first_byte(packet) % 16 == (if packet is Subscribe {
            SUBSCRIBE_FLAGS
        } else {
            0
        }),
{
    match packet {
        PacketView::Connect(inner) => {
            lemma_connect_wire_form(inner);
        },
        PacketView::Subscribe(topics) => {
            lemma_split_built_frame(SUBSCRIBE_FIRST_BYTE, spec_subscribe_tail(topics), Seq::empty());
        },
        _ => {},
    }
}

/// Every wire form that `encode` gives is exactly one frame, and reading
/// that frame gives a packet whose own wire form is the same bytes: a CONNACK
/// is read as a CONNACK, a CONNECT and a SUBSCRIBE as unknown packets that
/// keep the bytes. The same holds of an unknown packet whose bytes are one
/// frame of a type other than 2.
pub proof fn lemma_decode_encode_packet(packet: PacketView)
    requires
        spec_encode_packet(packet) is Ok,
        packet matches PacketView::Unknown(bytes) ==> spec_is_frame(bytes) && spec_type_id(
            bytes[0],
        ) != CONNACK_TYPE_ID,
    ensures
        spec_is_frame(spec_encode_packet(packet)->Ok_0),
        spec_decode_frame(spec_encode_packet(packet)->Ok_0) matches Ok(decoded)
            && spec_encode_packet(decoded) == spec_encode_packet(packet),
        packet is Connack || spec_decode_frame(spec_encode_packet(packet)->Ok_0) == Ok::<
            PacketView,
            DecodeError,
        >(PacketView::Unknown(spec_encode_packet(packet)->Ok_0)),
{
    if !(packet is Unknown) {
        lemma_wire_form_is_frame(packet);
    }
}

/// The wire forms of two packets, sent one behind the other, are read from
/// the stream as two frames, the two wire forms in order, with nothing left:
/// at once, and just so in two pieces cut at any place.
pub proof fn lemma_two_packets_two_frames(first: PacketView, second: PacketView, cut: int)
    requires
        spec_encode_packet(first) is Ok,
        spec_encode_packet(second) is Ok,
        first matches PacketView::Unknown(bytes) ==> spec_is_frame(bytes),
        second matches PacketView::Unknown(bytes) ==> spec_is_frame(bytes),
        0 <= cut <= spec_encode_packet(first)->Ok_0.len() + spec_encode_packet(second)->Ok_0.len(),
    ensures
        ({
            let one = spec_encode_packet(first)->Ok_0;
            let two = spec_encode_packet(second)->Ok_0;
            let (early, rest) = spec_split_stream((one + two).take(cut));
            let (late, left) = spec_split_stream(rest + (one + two).skip(cut));
            &&& spec_split_stream(one + two) == (seq![one, two], Seq::<u8>::empty())
            &&& early + late == seq![one, two]
            &&& left == Seq::<u8>::empty()
        }),
{
    if !(first is Unknown) {
        lemma_wire_form_is_frame(first);
    }
    if !(second is Unknown) {
        lemma_wire_form_is_frame(second);
    }
    lemma_split_two_frames(
        spec_encode_packet(first)->Ok_0,
        spec_encode_packet(second)->Ok_0,
        cut,
    );
}

/// The wire form of each of `packets`.
pub open spec fn spec_wire_forms(packets: Seq<PacketView>) -> Seq<Seq<u8>> {
    packets.map_values(|packet: PacketView| spec_encode_packet(packet)->Ok_0)
}

/// The wire forms of any number of packets, sent one behind the other, are
/// read from the stream as that many frames, the wire forms in the order
/// sent, with nothing left.
pub proof fn lemma_packets_in_order(packets: Seq<PacketView>)
    requires
        forall|k: int|
            0 <= k < packets.len() ==> spec_encode_packet(#[trigger] packets[k]) is Ok,
        forall|k: int|
            0 <= k < packets.len() ==> (#[trigger] packets[k] matches PacketView::Unknown(bytes)
                ==> spec_is_frame(bytes)),
    ensures
        spec_split_stream(spec_wire_forms(packets).flatten()) == (
            spec_wire_forms(packets),
            Seq::<u8>::empty(),
        ),
{
    let wire = spec_wire_forms(packets);
    assert forall|k: int| 0 <= k < wire.len() implies spec_is_frame(#[trigger] wire[k]) by {
        if !(packets[k] is Unknown) {
            lemma_wire_form_is_frame(packets[k]);
        }
    }
    lemma_split_frames(wire);
}

} // verus!
