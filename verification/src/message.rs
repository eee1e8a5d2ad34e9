//! The messages of the discovery protocol and the bytes that stand for them.

use crate::buffer::buf_bytes;
use crate::wire::{
    be_bytes, lemma_be_bytes_len, HEADER_LEN, LENGTH_LEN, MAGIC, MAGIC_LEN, TAG_LEN,
};
use bytes::BytesMut;
use vstd::prelude::*;
use vstd::string::*;
use vstd::utf8::*;

verus! {

/// `std::io::Error`: the failure of a transport, carried through as it is.
#[verifier::external_type_specification]
#[verifier::external_body]
pub struct ExIoError(std::io::Error);

/// The kind of a message, which its tag names on the wire.
#[derive(Clone, Copy, Debug, PartialEq, Eq, Structural)]
pub enum MessageType {
    Get,
    Ping,
    Identity,
}

/// A message of the discovery protocol.
#[derive(Clone, Debug, PartialEq, Eq)]
pub enum Message {
    /// Asks which addresses are live under a protocol.
    Get { protocol: String },
    /// A liveness probe without payload.
    Ping,
    /// Announces that a protocol is served at an address.
    Identity { protocol: String, address: String },
}

/// A message as contracts see it: its strings as sequences of characters.
pub enum MessageView {
    Get { protocol: Seq<char> },
    Ping,
    Identity { protocol: Seq<char>, address: Seq<char> },
}

impl View for Message {
    type V = MessageView;

    open spec fn view(&self) -> MessageView {
        match *self {
            Message::Get { protocol } => MessageView::Get { protocol: protocol@ },
            Message::Ping => MessageView::Ping,
            Message::Identity { protocol, address } => MessageView::Identity {
                protocol: protocol@,
                address: address@,
            },
        }
    }
}

/// Why a stream could not be decoded.
#[derive(Debug)]
pub enum MessageError {
    /// The first string of a message declares more than the accepted length.
    ProtocolTooLong,
    /// A tag or a string is not valid UTF-8.
    InvalidString,
    /// The frame opens with this number, which is not the magic number.
    InvalidMagic(u16),
    /// The tag, given here in full, names no kind of message.
    InvalidType(String),
    /// The transport failed.
    Io(std::io::Error),
}

/// A decoding error as contracts see it.
pub enum ErrorView {
    ProtocolTooLong,
    InvalidString,
    InvalidMagic(u16),
    InvalidType(Seq<char>),
    Io,
}

impl View for MessageError {
    type V = ErrorView;

    open spec fn view(&self) -> ErrorView {
        match *self {
            MessageError::ProtocolTooLong => ErrorView::ProtocolTooLong,
            MessageError::InvalidString => ErrorView::InvalidString,
            MessageError::InvalidMagic(found) => ErrorView::InvalidMagic(found),
            MessageError::InvalidType(tag) => ErrorView::InvalidType(tag@),
            MessageError::Io(_) => ErrorView::Io,
        }
    }
}

impl From<std::io::Error> for MessageError {
    fn from(err: std::io::Error) -> (error: MessageError) {
        MessageError::Io(err)
    }
}

impl vstd::std_specs::convert::FromSpecImpl<std::io::Error> for MessageError {
    open spec fn obeys_from_spec() -> bool {
        true
    }

    open spec fn from_spec(err: std::io::Error) -> MessageError {
        MessageError::Io(err)
    }
}

impl From<std::string::FromUtf8Error> for MessageError {
    fn from(err: std::string::FromUtf8Error) -> (error: MessageError) {
        MessageError::InvalidString
    }
}

impl vstd::std_specs::convert::FromSpecImpl<std::string::FromUtf8Error> for MessageError {
    open spec fn obeys_from_spec() -> bool {
        true
    }

    open spec fn from_spec(err: std::string::FromUtf8Error) -> MessageError {
        MessageError::InvalidString
    }
}

impl MessageType {
    /// How many sections follow the header of a message of this kind: a length
    /// and a payload for each of its strings.
    pub open spec fn sections(self) -> nat {
        match self {
            MessageType::Get => 2,
            MessageType::Ping => 0,
            MessageType::Identity => 4,
        }
    }

    /// How many sections follow the header of a message of this kind.
    pub fn section_count(&self) -> (count: usize)
        ensures
            count == self.sections(),
    {
        match self {
            MessageType::Get => 2,
            MessageType::Ping => 0,
            MessageType::Identity => 4,
        }
    }

    /// The name of this kind in ASCII: "get", "ping" or "identity".
    pub open spec fn name(self) -> Seq<u8> {
        match self {
            MessageType::Get => seq![0x67u8, 0x65u8, 0x74u8],
            MessageType::Ping => seq![0x70u8, 0x69u8, 0x6eu8, 0x67u8],
            MessageType::Identity => seq![
                0x69u8,
                0x64u8,
                0x65u8,
                0x6eu8,
                0x74u8,
                0x69u8,
                0x74u8,
                0x79u8,
            ],
        }
    }

    /// The tag of this kind: its name, filled up with zero bytes to ten.
    pub open spec fn tag(self) -> Seq<u8> {
        self.name() + Seq::new((TAG_LEN - self.name().len()) as nat, |i: int| 0u8)
    }

    /// The name of this kind as bytes.
    pub fn name_bytes(&self) -> (name: &'static [u8])
        ensures
            name@ == self.name(),
    {
        broadcast use is_ascii_spec_bytes;

        let name: &'static str = match self {
            MessageType::Get => "get",
            MessageType::Identity => "identity",
            MessageType::Ping => "ping",
        };
        proof {
            reveal_strlit("get");
            reveal_strlit("identity");
            reveal_strlit("ping");
            assert(is_ascii(name));
            assert(name.spec_bytes() =~= self.name());
        }
        name.as_bytes()
    }

    /// The tag of this kind in a buffer of its own.
    pub fn to_bytes(&self) -> (tag: BytesMut)
        ensures
            buf_bytes(tag) == self.tag(),
    {
        let mut bytes = BytesMut::from(self.name_bytes());
        bytes.resize(TAG_LEN, 0);
        bytes
    }
}

/// The header of a message of the given kind: the magic number, then the tag.
pub open spec fn header(kind: MessageType) -> Seq<u8> {
    be_bytes(MAGIC as nat, MAGIC_LEN as nat) + kind.tag()
}

/// A string on the wire: the length of its UTF-8 bytes in eight bytes, then
/// those bytes.
pub open spec fn field(text: Seq<char>) -> Seq<u8> {
    be_bytes(encode_utf8(text).len(), LENGTH_LEN as nat) + encode_utf8(text)
}

impl MessageView {
    /// The bytes that stand for this message on the wire.
    pub open spec fn encoding(self) -> Seq<u8> {
        match self {
            MessageView::Get { protocol } => header(MessageType::Get) + field(protocol),
            MessageView::Ping => header(MessageType::Ping),
            MessageView::Identity { protocol, address } => header(MessageType::Identity) + field(
                protocol,
            ) + field(address),
        }
    }

    /// The kind of this message.
    pub open spec fn kind(self) -> MessageType {
        match self {
            MessageView::Get { .. } => MessageType::Get,
            MessageView::Ping => MessageType::Ping,
            MessageView::Identity { .. } => MessageType::Identity,
        }
    }
}

/// The length of an encoding: twelve bytes of header, and for each string
/// eight bytes of length and the bytes of the string.
pub proof fn lemma_encoding_len(message: MessageView)
    ensures
        message.encoding().len() == match message {
            MessageView::Ping => 12,
            MessageView::Get { protocol } => 12 + 8 + encode_utf8(protocol).len(),
            MessageView::Identity { protocol, address } => 12 + 8 + encode_utf8(protocol).len() + 8
                + encode_utf8(address).len(),
        },
{
    lemma_be_bytes_len(MAGIC as nat, 2);
    match message {
        MessageView::Ping => {},
        MessageView::Get { protocol } => {
            lemma_be_bytes_len(encode_utf8(protocol).len(), 8);
        },
        MessageView::Identity { protocol, address } => {
            lemma_be_bytes_len(encode_utf8(protocol).len(), 8);
            lemma_be_bytes_len(encode_utf8(address).len(), 8);
        },
    }
}

impl Message {
    /// The number of bytes that the message takes on the wire, or `None` where
    /// that number is beyond what a buffer can hold.
    pub fn encoded_len(&self) -> (len: Option<usize>)
        ensures
            match len {
                Some(n) => n == self@.encoding().len(),
                None => self@.encoding().len() > usize::MAX,
            },
    {
        proof {
            lemma_encoding_len(self@);
        }
        match self {
            Message::Ping => Some(HEADER_LEN),
            Message::Get { protocol } => protocol.as_str().as_bytes().len().checked_add(
                HEADER_LEN + LENGTH_LEN,
            ),
            Message::Identity { protocol, address } => {
                match protocol.as_str().as_bytes().len().checked_add(
                    HEADER_LEN + LENGTH_LEN + LENGTH_LEN,
                ) {
                    Some(front) => front.checked_add(address.as_str().as_bytes().len()),
                    None => None,
                }
            },
        }
    }

    /// The kind of this message.
    pub fn get_type(&self) -> (kind: MessageType)
        ensures
            kind == self@.kind(),
    {
        match self {
            Message::Get { protocol: _ } => MessageType::Get,
            Message::Identity { protocol: _, address: _ } => MessageType::Identity,
            Message::Ping => MessageType::Ping,
        }
    }
}

} // verus!
